//! The whole project: its packages, the workspace's shared dependencies,
//! and the inheritance of features from the workspace.

use vstd::prelude::*;
use crate::dependency::Dependency;
use crate::error::Error;
use crate::graph::FeatureGraph;
use crate::names::views;
use crate::package::Package;

verus! {

/// The packages of a project. Where the project's workspace declares shared
/// dependencies, one more package stands for the workspace and holds them.
#[derive(Debug)]
pub struct Document {
    packages: Vec<Package>,
    workspace_index: Option<usize>,
    root_path: String,
}

/// The workspace's declaration `shared` is the one that a dependency called
/// `name` inherits from: it has that name, or that name stands for it.
pub open spec fn declares(shared: Dependency, name: Seq<char>) -> bool {
    shared.name@ == name || match shared.rename {
        Some(rename) => rename@ == name,
        None => false,
    }
}

/// The declaration at `j` is the first among `shared` that a dependency
/// called `name` inherits from.
pub open spec fn is_first_link(shared: Seq<Dependency>, name: Seq<char>, j: int) -> bool {
    &&& 0 <= j < shared.len()
    &&& declares(shared[j], name)
    &&& forall|k: int| 0 <= k < j ==> !declares(#[trigger] shared[k], name)
}

/// Nothing among `shared` is what a dependency called `name` inherits from.
pub open spec fn has_no_link(shared: Seq<Dependency>, name: Seq<char>) -> bool {
    forall|k: int| 0 <= k < shared.len() ==> !declares(#[trigger] shared[k], name)
}

/// A dependency of a member package can take over the features of the
/// workspace: it does not inherit at all, or the workspace declares it and
/// each enabled feature of that declaration can be inherited.
pub open spec fn can_inherit(before: Dependency, shared: Seq<Dependency>) -> bool {
    !before.workspace || exists|j: int| #[trigger]
        is_first_link(shared, before.name@, j) && before.features@.inherit(
            shared[j].features@.enabled_list(),
        ) is Some
}

/// `after` is the dependency `before` of a member package with the features
/// of the workspace taken over: a dependency that does not inherit is as it
/// was, one that does has inherited the enabled features of the workspace's
/// declaration.
pub open spec fn inherited(before: Dependency, shared: Seq<Dependency>, after: Dependency) -> bool {
    &&& after.same_declaration(&before)
    &&& if before.workspace {
        exists|j: int| #[trigger]
            is_first_link(shared, before.name@, j) && before.features@.inherit(
                shared[j].features@.enabled_list(),
            ) == Some(after.features@)
    } else {
        after.features@ == before.features@
    }
}

/// Two dependencies that differ at most in the states of their features.
pub open spec fn same_frame(before: Dependency, after: Dependency) -> bool {
    &&& after.same_declaration(&before)
    &&& before.features@.same_shape(after.features@)
}

/// The place of the first declaration among `shared` that a dependency
/// called `name` inherits from.
pub fn find_link(shared: &Vec<Dependency>, name: &String) -> (found: Option<usize>)
    ensures
        match found {
            Some(j) => is_first_link(shared@, name@, j as int),
            None => has_no_link(shared@, name@),
        },
{
    let mut j: usize = 0;
    while j < shared.len()
        invariant
            j <= shared.len(),
            forall|k: int| 0 <= k < j ==> !declares(#[trigger] shared@[k], name@),
        decreases shared.len() - j,
    {
        let candidate = &shared[j];
        let renamed = match &candidate.rename {
            Some(rename) => *rename == *name,
            None => false,
        };
        if candidate.name == *name || renamed {
            return Some(j);
        }
        j += 1;
    }
    None
}

impl Document {
    /// The place of the package that stands for the workspace is the place
    /// of a package.
    #[verifier::type_invariant]
    pub closed spec fn workspace_is_a_package(&self) -> bool {
        match self.workspace_index {
            Some(index) => index < self.packages@.len(),
            None => true,
        }
    }

    /// The packages, the one that stands for the workspace included.
    pub closed spec fn spec_packages(&self) -> Seq<Package> {
        self.packages@
    }

    /// The place of the package that stands for the workspace.
    pub closed spec fn spec_workspace_index(&self) -> Option<usize> {
        self.workspace_index
    }

    /// The directory of the project.
    pub closed spec fn spec_root_path(&self) -> Seq<char> {
        self.root_path@
    }

    /// The shared dependencies of the workspace.
    pub open spec fn shared(&self) -> Seq<Dependency> {
        self.spec_packages()[self.spec_workspace_index().unwrap() as int].dependencies@
    }

    /// Every dependency of every member package can take over the features
    /// of the workspace.
    pub open spec fn can_propagate(&self) -> bool {
        self.spec_workspace_index() is Some ==> forall|p: int, d: int|
            0 <= p < self.spec_packages().len() && p != self.spec_workspace_index().unwrap()
                && 0 <= d < self.spec_packages()[p].dependencies@.len() ==> can_inherit(
                #[trigger] self.spec_packages()[p].dependencies@[d],
                self.shared(),
            )
    }

    /// `after` is this project but for the states of features.
    pub open spec fn same_frame(&self, after: &Document) -> bool {
        &&& after.spec_workspace_index() == self.spec_workspace_index()
        &&& after.spec_root_path() == self.spec_root_path()
        &&& after.spec_packages().len() == self.spec_packages().len()
        &&& forall|p: int|
            0 <= p < self.spec_packages().len() ==> {
                &&& (#[trigger] after.spec_packages()[p]).name == self.spec_packages()[p].name
                &&& after.spec_packages()[p].manifest_path == self.spec_packages()[p].manifest_path
                &&& after.spec_packages()[p].dependencies@.len()
                    == self.spec_packages()[p].dependencies@.len()
            }
        &&& forall|p: int, d: int|
            0 <= p < self.spec_packages().len() && 0 <= d
                < self.spec_packages()[p].dependencies@.len() ==> same_frame(
                self.spec_packages()[p].dependencies@[d],
                #[trigger] after.spec_packages()[p].dependencies@[d],
            )
    }

    /// `after` is this project with the features of the workspace taken
    /// over by every dependency of every member package; the package that
    /// stands for the workspace is as it was.
    pub open spec fn propagated(&self, after: &Document) -> bool {
        &&& self.same_frame(after)
        &&& match self.spec_workspace_index() {
            None => after.spec_packages() == self.spec_packages(),
            Some(workspace) => {
                &&& after.spec_packages()[workspace as int] == self.spec_packages()[workspace as int]
                &&& forall|p: int, d: int|
                    0 <= p < self.spec_packages().len() && p != workspace && 0 <= d
                        < self.spec_packages()[p].dependencies@.len() ==> inherited(
                        self.spec_packages()[p].dependencies@[d],
                        self.shared(),
                        #[trigger] after.spec_packages()[p].dependencies@[d],
                    )
            },
        }
    }

    /// `self` holds the given packages, and after them the package that
    /// stands for the workspace where there is one.
    pub open spec fn holds(
        &self,
        packages: Seq<Package>,
        workspace: Option<Package>,
        root_path: Seq<char>,
    ) -> bool {
        &&& self.spec_root_path() == root_path
        &&& match workspace {
            Some(workspace) => {
                &&& self.spec_packages() == packages.push(workspace)
                &&& self.spec_workspace_index() == Some(packages.len() as usize)
            },
            None => {
                &&& self.spec_packages() == packages
                &&& self.spec_workspace_index() is None
            },
        }
    }

    /// The project of the given packages. Where `workspace` holds the
    /// shared dependencies of the workspace, it becomes the last package,
    /// and what inherits from it takes over its features.
    ///
    /// Fails when the only package declares no dependency, and when a
    /// dependency cannot take over the features of the workspace.
    pub fn new(packages: Vec<Package>, workspace: Option<Package>, root_path: String) -> (result:
        Result<Document, Error>)
        ensures
            match result {
                Ok(document) => exists|draft: Document|
                    draft.holds(packages@, workspace, root_path@) && #[trigger] draft.propagated(
                        &document,
                    ),
                Err(Error::NoDependencies) => packages@.len() == 1
                    && packages@[0].dependencies@.len() == 0,
                Err(_) => exists|draft: Document|
                    draft.holds(packages@, workspace, root_path@) && !#[trigger] draft.can_propagate(),
            },
            result is Err <== packages@.len() == 1 && packages@[0].dependencies@.len() == 0,
    {
        if packages.len() == 1 && packages[0].dependencies.len() == 0 {
            return Err(Error::NoDependencies);
        }
        let mut packages = packages;
        let mut workspace_index = None;
        if let Some(workspace) = workspace {
            packages.push(workspace);
            workspace_index = Some(packages.len() - 1);
        }
        let mut document = Document { packages, workspace_index, root_path };
        let ghost draft = document;
        match document.update_workspace_deps() {
            Ok(_) => {
                assert(draft.propagated(&document));
                Ok(document)
            },
            Err(error) => {
                assert(!draft.can_propagate());
                Err(error)
            },
        }
    }

    pub fn root_path(&self) -> (path: &String)
        ensures
            path@ == self.spec_root_path(),
    {
        &self.root_path
    }

    pub fn workspace_index(&self) -> (index: Option<usize>)
        ensures
            index == self.spec_workspace_index(),
            match index {
                Some(index) => index < self.spec_packages().len(),
                None => true,
            },
    {
        proof {
            use_type_invariant(self);
        }
        self.workspace_index
    }

    pub fn get_packages(&self) -> (packages: &Vec<Package>)
        ensures
            packages@ == self.spec_packages(),
    {
        &self.packages
    }

    /// A project has a workspace when it holds more than one package.
    pub fn is_workspace(&self) -> (several: bool)
        ensures
            several == (self.spec_packages().len() > 1),
    {
        self.packages.len() > 1
    }

    /// The package at place `package_id`.
    pub fn get_package_by_index(&self, package_id: usize) -> (result: Result<&Package, Error>)
        ensures
            match result {
                Ok(package) => package_id < self.spec_packages().len() && *package
                    == self.spec_packages()[package_id as int],
                Err(Error::PackageIndexNotFound(index)) => index == package_id && package_id
                    >= self.spec_packages().len(),
                Err(_) => false,
            },
    {
        if package_id < self.packages.len() {
            Ok(&self.packages[package_id])
        } else {
            Err(Error::PackageIndexNotFound(package_id))
        }
    }

    /// The package at `p` is the first called `name`.
    pub open spec fn is_first_package(&self, name: Seq<char>, p: int) -> bool {
        &&& 0 <= p < self.spec_packages().len()
        &&& self.spec_packages()[p].name@ == name
        &&& forall|k: int| 0 <= k < p ==> (#[trigger] self.spec_packages()[k]).name@ != name
    }

    /// No package is called `name`.
    pub open spec fn has_no_package(&self, name: Seq<char>) -> bool {
        forall|k: int|
            0 <= k < self.spec_packages().len() ==> (#[trigger] self.spec_packages()[k]).name@ != name
    }

    /// The place of the first package called `name`.
    pub fn package_index(&self, name: &String) -> (found: Option<usize>)
        ensures
            match found {
                Some(p) => self.is_first_package(name@, p as int),
                None => self.has_no_package(name@),
            },
    {
        let mut p: usize = 0;
        while p < self.packages.len()
            invariant
                p <= self.packages.len(),
                forall|k: int| 0 <= k < p ==> (#[trigger] self.packages@[k]).name@ != name@,
            decreases self.packages.len() - p,
        {
            if self.packages[p].name == *name {
                return Some(p);
            }
            p += 1;
        }
        None
    }

    /// The first package called `package`.
    pub fn get_package(&self, package: &str) -> (result: Result<&Package, Error>)
        ensures
            match result {
                Ok(found) => exists|p: int| #[trigger]
                    self.is_first_package(package@, p) && *found == self.spec_packages()[p],
                Err(Error::PackageNotFound(missing)) => missing@ == package@ && self.has_no_package(
                    package@,
                ),
                Err(_) => false,
            },
    {
        let name = package.to_owned();
        match self.package_index(&name) {
            Some(p) => {
                assert(self.is_first_package(package@, p as int));
                Ok(&self.packages[p])
            },
            None => Err(Error::PackageNotFound(name)),
        }
    }

    /// The first package called `package`, to be changed in place.
    pub fn get_package_mut(&mut self, package: &str) -> (result: Result<&mut Package, Error>)
        ensures
            final(self).spec_workspace_index() == old(self).spec_workspace_index(),
            final(self).spec_root_path() == old(self).spec_root_path(),
            match result {
                Ok(found) => exists|p: int| #[trigger]
                    old(self).is_first_package(package@, p) && *found == old(self).spec_packages()[p]
                        && final(self).spec_packages() == old(self).spec_packages().update(
                        p,
                        *final(found),
                    ),
                Err(Error::PackageNotFound(missing)) => missing@ == package@ && old(self).has_no_package(package@) && final(self).spec_packages() == old(self).spec_packages(),
                Err(_) => false,
            },
    {
        proof {
            use_type_invariant(&*self);
        }
        let name = package.to_owned();
        match self.package_index(&name) {
            Some(p) => {
                assert(self.is_first_package(package@, p as int));
                Ok(&mut self.packages[p])
            },
            None => Err(Error::PackageNotFound(name)),
        }
    }

    /// The dependency at place `d` of the package at place `p`.
    pub open spec fn spec_dependency(&self, p: int, d: int) -> Option<Dependency> {
        if 0 <= p < self.spec_packages().len() && 0 <= d
            < self.spec_packages()[p].dependencies@.len() {
            Some(self.spec_packages()[p].dependencies@[d])
        } else {
            None
        }
    }

    /// `after` is this project but for the dependency at place `d` of the
    /// package at place `p`.
    pub open spec fn differs_at(&self, after: &Document, p: int, d: int) -> bool {
        &&& after.spec_workspace_index() == self.spec_workspace_index()
        &&& after.spec_root_path() == self.spec_root_path()
        &&& after.spec_packages().len() == self.spec_packages().len()
        &&& forall|q: int|
            0 <= q < self.spec_packages().len() && q != p ==> #[trigger] after.spec_packages()[q]
                == self.spec_packages()[q]
        &&& 0 <= p < self.spec_packages().len() ==> {
            &&& after.spec_packages()[p].name == self.spec_packages()[p].name
            &&& after.spec_packages()[p].manifest_path == self.spec_packages()[p].manifest_path
            &&& after.spec_packages()[p].dependencies@.len()
                == self.spec_packages()[p].dependencies@.len()
            &&& forall|e: int|
                0 <= e < self.spec_packages()[p].dependencies@.len() && e != d
                    ==> #[trigger] after.spec_packages()[p].dependencies@[e]
                    == self.spec_packages()[p].dependencies@[e]
        }
    }

    /// The dependency at place `dependency` of the package at place
    /// `package`.
    pub fn dependency_at(&self, package: usize, dependency: usize) -> (found: Option<&Dependency>)
        ensures
            match found {
                Some(found) => self.spec_dependency(package as int, dependency as int) == Some(
                    *found,
                ),
                None => self.spec_dependency(package as int, dependency as int) is None,
            },
    {
        if package < self.packages.len() && dependency < self.packages[package].dependencies.len() {
            Some(&self.packages[package].dependencies[dependency])
        } else {
            None
        }
    }

    /// The dependency at place `dependency` of the package at place
    /// `package`, to be changed in place.
    pub fn dependency_at_mut(&mut self, package: usize, dependency: usize) -> (found: Option<
        &mut Dependency,
    >)
        ensures
            old(self).differs_at(final(self), package as int, dependency as int),
            match found {
                Some(found) => old(self).spec_dependency(package as int, dependency as int) == Some(
                    *found,
                ) && final(self).spec_dependency(package as int, dependency as int) == Some(
                    *final(found),
                ),
                None => old(self).spec_dependency(package as int, dependency as int) is None && final(self).spec_packages() == old(self).spec_packages(),
            },
    {
        proof {
            use_type_invariant(&*self);
        }
        if package < self.packages.len() && dependency < self.packages[package].dependencies.len() {
            Some(&mut self.packages[package].dependencies[dependency])
        } else {
            None
        }
    }

    /// Switches the features called `features` off, one after the other,
    /// in the dependency at place `dependency` of the package at place
    /// `package`, each with what requires it.
    ///
    /// Fails where there is no such dependency, and at the first name that
    /// the dependency does not hold; what was switched off up to then
    /// stays off.
    pub fn disable_features_at(
        &mut self,
        package: usize,
        dependency: usize,
        features: &Vec<String>,
    ) -> (result: Result<(), Error>)
        ensures
            old(self).differs_at(final(self), package as int, dependency as int),
            match old(self).spec_dependency(package as int, dependency as int) {
                Some(before) => match final(self).spec_dependency(package as int, dependency as int) {
                    Some(after) => {
                        &&& same_frame(before, after)
                        &&& result is Ok <==> before.features@.disable_all(views(features@)) is Some
                        &&& result is Ok ==> Some(after.features@) == before.features@.disable_all(
                            views(features@),
                        )
                    },
                    None => false,
                },
                None => result is Err && final(self).spec_packages() == old(self).spec_packages(),
            },
    {
        match self.dependency_at_mut(package, dependency) {
            Some(found) => found.disable_all_features(features),
            None => Err(Error::DependencyIndexNotFound(dependency)),
        }
    }

    /// The package that stands for the workspace, where there is one.
    pub fn get_workspace_package(&self) -> (found: Option<Result<&Package, Error>>)
        ensures
            match found {
                Some(Ok(package)) => self.spec_workspace_index() is Some && *package
                    == self.spec_packages()[self.spec_workspace_index().unwrap() as int],
                Some(Err(_)) => false,
                None => self.spec_workspace_index() is None,
            },
    {
        proof {
            use_type_invariant(self);
        }
        match self.workspace_index {
            Some(workspace_index) => Some(self.get_package_by_index(workspace_index)),
            None => None,
        }
    }

    /// Lets every dependency of a member package that inherits from the
    /// workspace take over the enabled features of the workspace's
    /// declaration of it: what the dependency had inherited before is
    /// switched off, then each enabled feature of the declaration is
    /// switched on and marked as inherited. The package that stands for the
    /// workspace is left as it is. Without a workspace nothing changes.
    ///
    /// Fails at the first dependency that the workspace does not declare,
    /// or that cannot inherit one of the features; the dependencies before
    /// it have inherited, that one may be changed in part.
    pub fn update_workspace_deps(&mut self) -> (result: Result<(), Error>)
        ensures
            old(self).same_frame(final(self)),
            result is Ok <==> old(self).can_propagate(),
            result is Ok ==> old(self).propagated(final(self)),
            match result {
                Ok(_) => true,
                Err(Error::WorkspaceLinkMissing(name)) => old(self).spec_workspace_index() is Some
                    && has_no_link(old(self).shared(), name@),
                Err(Error::FeatureNotFound(_)) => true,
                Err(_) => false,
            },
    {
        proof {
            use_type_invariant(&*self);
        }
        let workspace = match self.workspace_index {
            Some(workspace) => workspace,
            None => {
                proof {
                    Self::lemma_same_frame_refl(old(self).packages@);
                }
                return Ok(());
            },
        };
        let ghost start = self.packages@;
        let ghost shared = start[workspace as int].dependencies@;
        proof {
            Self::lemma_same_frame_refl(start);
        }
        let package_count = self.packages.len();
        let mut p: usize = 0;
        while p < package_count
            invariant
                start == old(self).packages@,
                shared == start[workspace as int].dependencies@,
                self.workspace_index == Some(workspace),
                self.workspace_index == old(self).workspace_index,
                self.root_path == old(self).root_path,
                workspace < package_count,
                package_count == start.len(),
                self.packages@.len() == package_count,
                p <= package_count,
                self.packages@[workspace as int] == start[workspace as int],
                Self::frames_match(start, self.packages@),
                forall|q: int| p <= q < package_count ==> #[trigger] self.packages@[q] == start[q],
                forall|q: int, d: int|
                    0 <= q < p && q != workspace && 0 <= d < start[q].dependencies@.len()
                        ==> can_inherit(#[trigger] start[q].dependencies@[d], shared),
                forall|q: int, d: int|
                    0 <= q < p && q != workspace && 0 <= d < start[q].dependencies@.len() ==> inherited(
                        start[q].dependencies@[d],
                        shared,
                        #[trigger] self.packages@[q].dependencies@[d],
                    ),
            decreases package_count - p,
        {
            if p != workspace {
                let dependency_count = self.packages[p].dependencies.len();
                let mut d: usize = 0;
                while d < dependency_count
                    invariant
                        start == old(self).packages@,
                        shared == start[workspace as int].dependencies@,
                        self.workspace_index == Some(workspace),
                        self.workspace_index == old(self).workspace_index,
                        self.root_path == old(self).root_path,
                        workspace < package_count,
                        package_count == start.len(),
                        self.packages@.len() == package_count,
                        p < package_count,
                        p != workspace,
                        dependency_count == start[p as int].dependencies@.len(),
                        d <= dependency_count,
                        self.packages@[workspace as int] == start[workspace as int],
                        Self::frames_match(start, self.packages@),
                        forall|q: int| p < q < package_count ==> #[trigger] self.packages@[q] == start[q],
                        forall|e: int|
                            d <= e < dependency_count ==> #[trigger] self.packages@[p as int].dependencies@[e]
                                == start[p as int].dependencies@[e],
                        forall|q: int, e: int|
                            0 <= q < p && q != workspace && 0 <= e < start[q].dependencies@.len()
                                ==> can_inherit(#[trigger] start[q].dependencies@[e], shared),
                        forall|q: int, e: int|
                            0 <= q < p && q != workspace && 0 <= e < start[q].dependencies@.len()
                                ==> inherited(
                                start[q].dependencies@[e],
                                shared,
                                #[trigger] self.packages@[q].dependencies@[e],
                            ),
                        forall|e: int|
                            0 <= e < d ==> can_inherit(#[trigger] start[p as int].dependencies@[e], shared),
                        forall|e: int|
                            0 <= e < d ==> inherited(
                                start[p as int].dependencies@[e],
                                shared,
                                #[trigger] self.packages@[p as int].dependencies@[e],
                            ),
                    decreases dependency_count - d,
                {
                    let ghost before = self.packages@;
                    let ghost member = start[p as int].dependencies@[d as int];
                    assert(self.packages@[p as int].dependencies@[d as int] == member);
                    if self.packages[p].dependencies[d].workspace {
                        let name = self.packages[p].dependencies[d].name.clone();
                        let names = match find_link(&self.packages[workspace].dependencies, &name) {
                            Some(link) => self.packages[workspace].dependencies[link].enabled_features(),
                            None => {
                                proof {
                                    assert(!can_inherit(member, shared)) by {
                                        if can_inherit(member, shared) {
                                            let j = choose|j: int| #[trigger]
                                                is_first_link(shared, member.name@, j) && member.features@.inherit(
                                                    shared[j].features@.enabled_list(),
                                                ) is Some;
                                            assert(declares(shared[j], member.name@));
                                        }
                                    }
                                    assert(!old(self).can_propagate()) by {
                                    assert(old(self).shared() == shared);
                                    if old(self).can_propagate() {
                                        assert(can_inherit(
                                            old(self).spec_packages()[p as int].dependencies@[d as int],
                                            old(self).shared(),
                                        ));
                                    }
                                }
                                }
                                return Err(Error::WorkspaceLinkMissing(name));
                            },
                        };
                        let ghost link = choose|j: int| is_first_link(shared, member.name@, j) && views(names@)
                            == shared[j].features@.enabled_list();
                        let inherits = self.packages[p].dependencies[d].inherit_features(&names);
                        proof {
                            let after = self.packages@;
                            assert(after[workspace as int] == start[workspace as int]);
                            Self::lemma_frames_step(start, before, after, p as int, d as int);
                            assert forall|j: int| is_first_link(shared, member.name@, j) implies j == link by {
                                if j < link {
                                    assert(!declares(shared[j], member.name@));
                                }
                                if link < j {
                                    assert(!declares(shared[link], member.name@));
                                }
                            }
                            if inherits is Ok {
                                assert(is_first_link(shared, member.name@, link) && member.features@.inherit(
                                    shared[link].features@.enabled_list(),
                                ) is Some);
                                assert(can_inherit(member, shared));
                                assert(inherited(member, shared, after[p as int].dependencies@[d as int]));
                            } else {
                                assert(!can_inherit(member, shared));
                                assert(!old(self).can_propagate()) by {
                                    assert(old(self).shared() == shared);
                                    if old(self).can_propagate() {
                                        assert(can_inherit(
                                            old(self).spec_packages()[p as int].dependencies@[d as int],
                                            old(self).shared(),
                                        ));
                                    }
                                }
                            }
                        }
                        if let Err(error) = inherits {
                            return Err(error);
                        }
                    }
                    d += 1;
                }
            }
            p += 1;
        }
        proof {
            assert(old(self).can_propagate());
        }
        Ok(())
    }

    /// Packages that differ at most in the states of the features of their
    /// dependencies.
    pub open spec fn frames_match(before: Seq<Package>, after: Seq<Package>) -> bool {
        &&& after.len() == before.len()
        &&& forall|p: int|
            0 <= p < before.len() ==> {
                &&& (#[trigger] after[p]).name == before[p].name
                &&& after[p].manifest_path == before[p].manifest_path
                &&& after[p].dependencies@.len() == before[p].dependencies@.len()
            }
        &&& forall|p: int, d: int|
            0 <= p < before.len() && 0 <= d < before[p].dependencies@.len() ==> same_frame(
                before[p].dependencies@[d],
                #[trigger] after[p].dependencies@[d],
            )
    }

    proof fn lemma_same_frame_refl(packages: Seq<Package>)
        ensures
            Self::frames_match(packages, packages),
    {
    }

    proof fn lemma_frames_step(
        start: Seq<Package>,
        before: Seq<Package>,
        after: Seq<Package>,
        p: int,
        d: int,
    )
        requires
            Self::frames_match(start, before),
            0 <= p < before.len(),
            0 <= d < before[p].dependencies@.len(),
            after.len() == before.len(),
            forall|q: int| 0 <= q < before.len() && q != p ==> #[trigger] after[q] == before[q],
            after[p].name == before[p].name,
            after[p].manifest_path == before[p].manifest_path,
            after[p].dependencies@.len() == before[p].dependencies@.len(),
            forall|e: int|
                0 <= e < before[p].dependencies@.len() && e != d ==> #[trigger] after[p].dependencies@[e]
                    == before[p].dependencies@[e],
            same_frame(before[p].dependencies@[d], after[p].dependencies@[d]),
        ensures
            Self::frames_match(start, after),
    {
        assert forall|q: int, e: int|
            0 <= q < start.len() && 0 <= e < start[q].dependencies@.len() implies same_frame(
            start[q].dependencies@[e],
            #[trigger] after[q].dependencies@[e],
        ) by {
            assert(same_frame(start[q].dependencies@[e], before[q].dependencies@[e]));
            if q == p && e == d {
                FeatureGraph::lemma_same_shape_trans(
                    start[q].dependencies@[e].features@,
                    before[q].dependencies@[e].features@,
                    after[q].dependencies@[e].features@,
                );
            } else if q == p {
                assert(after[p].dependencies@[e] == before[p].dependencies@[e]);
            } else {
                assert(after[q] == before[q]);
            }
        }
        assert forall|q: int| 0 <= q < start.len() implies (#[trigger] after[q]).name == start[q].name
            && after[q].manifest_path == start[q].manifest_path && after[q].dependencies@.len()
            == start[q].dependencies@.len() by {
            assert(before[q].name == start[q].name);
            if q != p {
                assert(after[q] == before[q]);
            }
        }
    }

    /// In every dependency of the project, every enabled feature has the
    /// features it implies enabled.
    pub open spec fn all_closed(&self) -> bool {
        forall|p: int, d: int|
            0 <= p < self.spec_packages().len() && 0 <= d
                < self.spec_packages()[p].dependencies@.len() ==> (
            #[trigger] self.spec_packages()[p].dependencies@[d]).features@.closed()
    }

    /// Taking over the features of the workspace keeps a project in which
    /// every enabled feature of every dependency has the features it
    /// implies enabled.
    pub proof fn lemma_propagation_keeps_closed(&self, after: &Document)
        requires
            self.propagated(after),
            self.all_closed(),
        ensures
            after.all_closed(),
    {
        assert forall|p: int, d: int|
            0 <= p < after.spec_packages().len() && 0 <= d
                < after.spec_packages()[p].dependencies@.len() implies (
        #[trigger] after.spec_packages()[p].dependencies@[d]).features@.closed() by {
            let before = self.spec_packages()[p].dependencies@[d];
            let later = after.spec_packages()[p].dependencies@[d];
            assert(before.features@.closed());
            assert(same_frame(before, later));
            match self.spec_workspace_index() {
                None => {},
                Some(workspace) => {
                    if p != workspace {
                        assert(inherited(before, self.shared(), later));
                        if before.workspace {
                            let j = choose|j: int| #[trigger]
                                is_first_link(self.shared(), before.name@, j) && before.features@.inherit(
                                    self.shared()[j].features@.enabled_list(),
                                ) == Some(later.features@);
                            before.features@.lemma_inherit_keeps_closed(
                                self.shared()[j].features@.enabled_list(),
                            );
                        }
                    }
                },
            }
        }
    }
}

} // verus!
