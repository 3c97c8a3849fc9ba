//! A package and its dependencies.

use vstd::prelude::*;
use crate::dependency::Dependency;
use crate::error::Error;
use crate::markers::NameMarkers;

verus! {

/// One package of the project.
#[derive(Debug)]
pub struct Package {
    pub dependencies: Vec<Dependency>,
    pub name: String,
    /// The path of the manifest, the file's name included.
    pub manifest_path: String,
}

impl Package {
    /// The dependency at `i` is the first that is shown as `name` with the
    /// given marks.
    pub open spec fn is_first_named(&self, name: Seq<char>, markers: NameMarkers, i: int) -> bool {
        &&& 0 <= i < self.dependencies@.len()
        &&& self.dependencies@[i].spec_name(markers) == name
        &&& forall|j: int|
            0 <= j < i ==> (#[trigger] self.dependencies@[j]).spec_name(markers) != name
    }

    /// No dependency is shown as `name` with the given marks.
    pub open spec fn has_none_named(&self, name: Seq<char>, markers: NameMarkers) -> bool {
        forall|j: int|
            0 <= j < self.dependencies@.len() ==> (#[trigger] self.dependencies@[j]).spec_name(
                markers,
            ) != name
    }

    pub fn get_deps(&self) -> (dependencies: &Vec<Dependency>)
        ensures
            dependencies == &self.dependencies,
    {
        &self.dependencies
    }

    /// The place of the first dependency that is shown as `name` with the
    /// given marks.
    pub fn dep_index_with(&self, name: &String, markers: &NameMarkers) -> (found: Option<usize>)
        ensures
            match found {
                Some(i) => self.is_first_named(name@, *markers, i as int),
                None => self.has_none_named(name@, *markers),
            },
    {
        let mut i: usize = 0;
        while i < self.dependencies.len()
            invariant
                i <= self.dependencies.len(),
                forall|j: int|
                    0 <= j < i ==> (#[trigger] self.dependencies@[j]).spec_name(*markers) != name@,
            decreases self.dependencies.len() - i,
        {
            if self.dependencies[i].name_with(markers) == *name {
                return Some(i);
            }
            i += 1;
        }
        None
    }

    /// The place of the first dependency that is shown as `name` with the
    /// marks for the terminal at hand.
    pub fn get_dep_index(&self, name: &String) -> (result: Result<usize, Error>)
        ensures
            match result {
                Ok(i) => exists|markers: NameMarkers, at: int| #[trigger]
                    self.is_first_named(name@, markers, at) && at == i,
                Err(Error::DependencyNotFound(missing)) => missing@ == name@ && exists|
                    markers: NameMarkers,
                | #[trigger] self.has_none_named(name@, markers),
                Err(_) => false,
            },
    {
        let markers = NameMarkers::for_terminal();
        match self.dep_index_with(name, &markers) {
            Some(i) => {
                assert(self.is_first_named(name@, markers, i as int));
                Ok(i)
            },
            None => {
                assert(self.has_none_named(name@, markers));
                Err(Error::DependencyNotFound(name.clone()))
            },
        }
    }

    /// The first dependency that is shown as `name` with the marks for the
    /// terminal at hand.
    pub fn get_dep(&self, name: &str) -> (result: Result<&Dependency, Error>)
        ensures
            match result {
                Ok(dependency) => exists|markers: NameMarkers, i: int| #[trigger]
                    self.is_first_named(name@, markers, i) && *dependency == self.dependencies@[i],
                Err(Error::DependencyNotFound(missing)) => missing@ == name@ && exists|
                    markers: NameMarkers,
                | #[trigger] self.has_none_named(name@, markers),
                Err(_) => false,
            },
    {
        let markers = NameMarkers::for_terminal();
        let name = name.to_owned();
        match self.dep_index_with(&name, &markers) {
            Some(i) => {
                assert(self.is_first_named(name@, markers, i as int));
                Ok(&self.dependencies[i])
            },
            None => {
                assert(self.has_none_named(name@, markers));
                Err(Error::DependencyNotFound(name))
            },
        }
    }

    /// The first dependency that is shown as `name` with the marks for the
    /// terminal at hand, to be changed in place.
    pub fn get_dep_mut(&mut self, name: &str) -> (result: Result<&mut Dependency, Error>)
        ensures
            final(self).name == old(self).name,
            final(self).manifest_path == old(self).manifest_path,
            match result {
                Ok(dependency) => exists|markers: NameMarkers, i: int| #[trigger]
                    old(self).is_first_named(name@, markers, i) && *dependency == old(self).dependencies@[i]
                        && final(self).dependencies@ == old(self).dependencies@.update(
                        i,
                        *final(dependency),
                    ),
                Err(Error::DependencyNotFound(missing)) => missing@ == name@ && final(self).dependencies@
                    == old(self).dependencies@ && exists|markers: NameMarkers| #[trigger]
                    old(self).has_none_named(name@, markers),
                Err(_) => false,
            },
    {
        let markers = NameMarkers::for_terminal();
        let name = name.to_owned();
        match self.dep_index_with(&name, &markers) {
            Some(i) => {
                assert(self.is_first_named(name@, markers, i as int));
                Ok(&mut self.dependencies[i])
            },
            None => {
                assert(self.has_none_named(name@, markers));
                Err(Error::DependencyNotFound(name))
            },
        }
    }
}

} // verus!
