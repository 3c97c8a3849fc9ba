//! A dependency of a package with its features, and the operations that
//! switch features on and off.

use vstd::prelude::*;
use vstd::string::StringExecFns;
use crate::error::Error;
use crate::feature::{EnabledState, FeatureData};
use crate::feature_map::FeatureMap;
use crate::graph::{Direction, FeatureEntry, FeatureGraph};
use crate::markers::NameMarkers;
use crate::names::{ordered, sort_names, views};

verus! {

/// The table of the manifest that declares a dependency.
#[derive(Clone, Copy, Debug, PartialEq, Eq, Structural)]
pub enum DependencyType {
    Normal,
    Development,
    Build,
    /// Declared for the whole workspace, to be inherited by its members.
    Workspace,
    Unknown,
}

/// The platform that a dependency is restricted to.
#[derive(Debug)]
pub enum Target {
    /// A target triple, as written.
    Name(String),
    /// A `cfg` expression; the text is what stands between the brackets of
    /// `cfg(..)`.
    Cfg(String),
}

impl Target {
    /// The platform as it is written in a name: a target triple as it is,
    /// a `cfg` expression inside `cfg(..)`.
    pub open spec fn text(&self) -> Seq<char> {
        match self {
            Target::Name(name) => name@,
            Target::Cfg(expression) => "cfg("@ + expression@ + ")"@,
        }
    }

    /// The platform as it is written in a name.
    pub fn to_text(&self) -> (text: String)
        ensures
            text@ == self.text(),
    {
        match self {
            Target::Name(name) => name.clone(),
            Target::Cfg(expression) => {
                let mut text = "cfg(".to_owned();
                text.append(expression.as_str());
                text.append(")");
                text
            },
        }
    }
}

/// One dependency of a package.
#[derive(Debug)]
pub struct Dependency {
    pub name: String,
    pub rename: Option<String>,
    pub comment: Option<String>,
    pub version: String,
    /// The declaration inherits version and features from the workspace's
    /// dependency of the same name.
    pub workspace: bool,
    pub kind: DependencyType,
    pub target: Option<Target>,
    pub features: FeatureMap,
}

impl Dependency {
    /// Everything but the features is the same in both.
    pub open spec fn same_declaration(&self, other: &Dependency) -> bool {
        &&& self.name == other.name
        &&& self.rename == other.rename
        &&& self.comment == other.comment
        &&& self.version == other.version
        &&& self.workspace == other.workspace
        &&& self.kind == other.kind
        &&& self.target == other.target
    }

    /// The default feature set can be left to the manifest's default: the
    /// dependency does not inherit from the workspace, and every feature of
    /// the default set is enabled.
    pub open spec fn spec_can_use_default(&self) -> bool {
        !self.workspace && self.features@.defaults_enabled()
    }

    /// The name of the dependency with its platform before it.
    pub open spec fn spec_base_name(&self) -> Seq<char> {
        match self.target {
            Some(target) => target.text() + "."@ + self.name@,
            None => self.name@,
        }
    }

    /// The name under which the dependency is shown and looked up: the
    /// platform it is restricted to, a mark for its kind and a mark for
    /// inheriting from the workspace stand before the name.
    pub open spec fn spec_name(&self, markers: NameMarkers) -> Seq<char> {
        let base = self.spec_base_name();
        let marked = match self.kind {
            DependencyType::Normal | DependencyType::Workspace => base,
            DependencyType::Development => markers.development@ + " "@ + base,
            DependencyType::Build => markers.build@ + " "@ + base,
            DependencyType::Unknown => markers.unknown@ + " "@ + base,
        };
        if self.workspace {
            markers.workspace@ + " "@ + marked
        } else {
            marked
        }
    }

    /// The name under which the dependency is shown and looked up, with
    /// the given marks.
    pub fn name_with(&self, markers: &NameMarkers) -> (name: String)
        ensures
            name@ == self.spec_name(*markers),
    {
        let mut base = String::new();
        match &self.target {
            Some(target) => {
                base.append(target.to_text().as_str());
                base.append(".");
            },
            None => {},
        }
        base.append(self.name.as_str());
        assert(base@ =~= self.spec_base_name());
        let mut marked = String::new();
        match self.kind {
            DependencyType::Normal | DependencyType::Workspace => {},
            DependencyType::Development => {
                marked.append(markers.development.as_str());
                marked.append(" ");
            },
            DependencyType::Build => {
                marked.append(markers.build.as_str());
                marked.append(" ");
            },
            DependencyType::Unknown => {
                marked.append(markers.unknown.as_str());
                marked.append(" ");
            },
        }
        marked.append(base.as_str());
        let mut name = String::new();
        if self.workspace {
            name.append(markers.workspace.as_str());
            name.append(" ");
        }
        name.append(marked.as_str());
        assert(name@ =~= self.spec_name(*markers));
        name
    }

    /// The name under which the dependency is shown and looked up, with
    /// the marks for the terminal at hand.
    pub fn get_name(&self) -> (name: String)
        ensures
            exists|markers: NameMarkers| name@ == #[trigger] self.spec_name(markers),
    {
        let markers = NameMarkers::for_terminal();
        self.name_with(&markers)
    }

    pub fn get_version(&self) -> (version: String)
        ensures
            version@ == self.version@,
    {
        self.version.clone()
    }

    /// The record of the feature called `feature_name`.
    pub fn get_feature(&self, feature_name: &str) -> (found: Option<&FeatureData>)
        ensures
            match found {
                Some(data) => self.features@.get(feature_name@) == Some(data@),
                None => self.features@.get(feature_name@) is None,
            },
    {
        self.features.get(feature_name)
    }

    pub fn has_features(&self) -> (any: bool)
        ensures
            any == (self.features@.len() > 0),
    {
        !self.features.is_empty()
    }

    /// Whether the default feature set can be left to the manifest's
    /// default: the dependency does not inherit from the workspace, and
    /// every feature of the default set is enabled.
    pub fn can_use_default(&self) -> (usable: bool)
        ensures
            usable == self.spec_can_use_default(),
            usable <==> !self.workspace && forall|i: int|
                self.features@.has_index(i) && (#[trigger] self.features@.feature(i)).is_default
                    ==> self.features@.feature(i).is_enabled(),
    {
        if self.workspace {
            return false;
        }
        let count = self.features.len();
        let mut i: usize = 0;
        while i < count
            invariant
                count == self.features@.len(),
                i <= count,
                forall|k: int|
                    0 <= k < i && (#[trigger] self.features@.entries[k]).feature.is_default
                        ==> self.features@.entries[k].feature.is_enabled(),
            decreases count - i,
        {
            let data = self.features.data_at(i);
            if data.is_default && !data.is_enabled() {
                assert(self.features@.entries[i as int].feature.is_default);
                return false;
            }
            i += 1;
        }
        true
    }

    /// Switches the feature called `feature_name` on, and with it every
    /// feature of this dependency that it implies, directly or through
    /// others. Entries for optional dependencies and for features of other
    /// crates are not followed.
    pub fn enable_feature(&mut self, feature_name: &str) -> (result: Result<(), Error>)
        ensures
            final(self).same_declaration(old(self)),
            old(self).features@.enable_outcome(feature_name@, final(self).features@, result is Ok),
            match result {
                Ok(_) => true,
                Err(Error::FeatureNotFound(name)) => !old(self).features@.contains(name@) && (!old(self).features@.contains(feature_name@) ==> name@ == feature_name@),
                Err(_) => false,
            },
    {
        let name = feature_name.to_owned();
        match self.features.position(&name) {
            None => Err(Error::FeatureNotFound(name)),
            Some(index) => self.features.enable_at(index),
        }
    }

    /// Switches the feature called `feature_name` off, and with it every
    /// feature of this dependency that requires it, directly or through
    /// others.
    pub fn disable_feature(&mut self, feature_name: &str) -> (result: Result<(), Error>)
        ensures
            final(self).same_declaration(old(self)),
            final(self).features@ == old(self).features@.disable_feature(feature_name@),
            result is Ok <==> old(self).features@.contains(feature_name@),
            match result {
                Ok(_) => true,
                Err(Error::FeatureNotFound(name)) => name@ == feature_name@,
                Err(_) => false,
            },
    {
        let name = feature_name.to_owned();
        match self.features.position(&name) {
            None => Err(Error::FeatureNotFound(name)),
            Some(index) => {
                self.features.disable_at(index);
                Ok(())
            },
        }
    }

    /// Switches the feature called `feature_name` to the other side. A
    /// feature that is inherited from the workspace is left as it is.
    pub fn toggle_feature(&mut self, feature_name: &str) -> (result: Result<(), Error>)
        ensures
            final(self).same_declaration(old(self)),
            old(self).features@.toggle_outcome(feature_name@, final(self).features@, result is Ok),
            match result {
                Ok(_) => true,
                Err(Error::FeatureNotFound(name)) => !old(self).features@.contains(name@) && (!old(self).features@.contains(feature_name@) ==> name@ == feature_name@),
                Err(_) => false,
            },
    {
        let name = feature_name.to_owned();
        match self.features.position(&name) {
            None => Err(Error::FeatureNotFound(name)),
            Some(index) => {
                match self.features.data_at(index).enabled_state {
                    EnabledState::Normal(is_enabled) => {
                        if is_enabled {
                            self.features.disable_at(index);
                            Ok(())
                        } else {
                            self.features.enable_at(index)
                        }
                    },
                    EnabledState::Workspace => Ok(()),
                }
            },
        }
    }

    /// Marks the feature called `feature_name` as inherited from the
    /// workspace, whatever its state was. Nothing is carried over to other
    /// features.
    pub fn set_feature_to_workspace(&mut self, feature_name: &str) -> (result: Result<(), Error>)
        ensures
            final(self).same_declaration(old(self)),
            final(self).features@ == old(self).features@.set_to_workspace(feature_name@),
            result is Ok <==> old(self).features@.contains(feature_name@),
            match result {
                Ok(_) => true,
                Err(Error::FeatureNotFound(name)) => name@ == feature_name@,
                Err(_) => false,
            },
    {
        let name = feature_name.to_owned();
        match self.features.position(&name) {
            None => Err(Error::FeatureNotFound(name)),
            Some(index) => {
                self.features.set_state(index, EnabledState::Workspace);
                Ok(())
            },
        }
    }

    /// The features that require the feature called `feature_name`: those
    /// that list the name, whatever the kind of the entry.
    pub fn get_dependent_features(&self, feature_name: &str) -> (dependents: Vec<String>)
        ensures
            views(dependents@) == self.features@.dependents(feature_name@),
    {
        let name = feature_name.to_owned();
        let count = self.features.len();
        let mut picked: Vec<bool> = Vec::new();
        let mut i: usize = 0;
        while i < count
            invariant
                count == self.features@.len(),
                i <= count,
                name@ == feature_name@,
                picked@.len() == i,
                forall|k: int|
                    0 <= k < i ==> picked@[k] == (#[trigger] self.features@.entries[k]).feature.lists(
                        feature_name@,
                    ),
            decreases count - i,
        {
            picked.push(self.features.lists_at(i, &name));
            i += 1;
        }
        self.features.names_where(
            &picked,
            Ghost(|entry: FeatureEntry| entry.feature.lists(feature_name@)),
        )
    }

    /// The features that are enabled and require the feature called
    /// `feature_name`.
    pub fn get_currently_dependent_features(&self, feature_name: &str) -> (dependents: Vec<String>)
        ensures
            views(dependents@) == self.features@.current_dependents(feature_name@),
    {
        let name = feature_name.to_owned();
        let count = self.features.len();
        let mut picked: Vec<bool> = Vec::new();
        let mut i: usize = 0;
        while i < count
            invariant
                count == self.features@.len(),
                i <= count,
                name@ == feature_name@,
                picked@.len() == i,
                forall|k: int|
                    0 <= k < i ==> picked@[k] == ((#[trigger] self.features@.entries[k]).feature.lists(
                        feature_name@,
                    ) && self.features@.entries[k].feature.is_enabled()),
            decreases count - i,
        {
            picked.push(self.features.lists_at(i, &name) && self.features.data_at(i).is_enabled());
            i += 1;
        }
        self.features.names_where(
            &picked,
            Ghost(
                |entry: FeatureEntry|
                    entry.feature.lists(feature_name@) && entry.feature.is_enabled(),
            ),
        )
    }

    /// Whether some other feature that is enabled requires the feature at
    /// `place`.
    fn has_other_dependent(&self, place: usize) -> (found: bool)
        requires
            place < self.features@.len(),
        ensures
            found == self.features@.has_other_dependent(place as int),
    {
        let name = self.features.name_at(place);
        let count = self.features.len();
        let mut j: usize = 0;
        while j < count
            invariant
                count == self.features@.len(),
                j <= count,
                place < count,
                name@ == self.features@.name(place as int),
                forall|k: int|
                    0 <= k < j && k != place ==> !((#[trigger] self.features@.entries[k]).feature.is_enabled()
                        && self.features@.entries[k].feature.lists(name@)),
            decreases count - j,
        {
            if j != place && self.features.data_at(j).is_enabled() && self.features.lists_at(j, name) {
                assert(self.features@.entries[j as int].feature.is_enabled());
                return true;
            }
            j += 1;
        }
        false
    }

    /// The features to name in the manifest so that reading it back gives
    /// the enabled features of this dependency, in ascending order: the
    /// enabled features without those that come with the default set (where
    /// that is in use), those inherited from the workspace, the default set
    /// itself, and those that another enabled feature requires.
    pub fn get_features_to_enable(&self) -> (names: Vec<String>)
        ensures
            ordered(views(names@)),
            views(names@).no_duplicates(),
            forall|name: Seq<char>|
                views(names@).contains(name) <==> exists|i: int|
                    self.features@.has_index(i) && #[trigger] self.features@.name(i) == name
                        && self.features@.named_in_manifest(self.spec_can_use_default(), i),
    {
        let can_use_default = self.can_use_default();
        let default_name = "default".to_owned();
        let mut names: Vec<String> = Vec::new();
        let count = self.features.len();
        let ghost graph = self.features@;
        let mut i: usize = 0;
        while i < count
            invariant
                graph == self.features@,
                graph.wf(),
                count == graph.len(),
                i <= count,
                can_use_default == self.spec_can_use_default(),
                default_name@ == "default"@,
                forall|k: int|
                    0 <= k < names@.len() ==> graph.named_before(
                        can_use_default,
                        i as int,
                        #[trigger] views(names@)[k],
                    ),
                forall|at: int|
                    0 <= at < i && graph.named_in_manifest(can_use_default, at) ==> views(
                        names@,
                    ).contains(#[trigger] graph.name(at)),
                views(names@).no_duplicates(),
            decreases count - i,
        {
            let data = self.features.data_at(i);
            let name = self.features.name_at(i);
            let keep = data.is_enabled() && !(can_use_default && data.is_default)
                && data.is_toggleable() && !(*name == default_name) && !self.has_other_dependent(i);
            assert(keep == graph.named_in_manifest(can_use_default, i as int));
            let ghost earlier = views(names@);
            if keep {
                names.push(name.clone());
                proof {
                    assert(views(names@) =~= earlier.push(graph.name(i as int)));
                    assert forall|a: int| 0 <= a < earlier.len() implies earlier[a] != graph.name(
                        i as int,
                    ) by {
                        assert(graph.named_before(can_use_default, i as int, earlier[a]));
                    }
                }
            }
            proof {
                let later = views(names@);
                assert forall|k: int| 0 <= k < later.len() implies graph.named_before(
                    can_use_default,
                    i + 1,
                    #[trigger] later[k],
                ) by {
                    if k < earlier.len() {
                        assert(later[k] == earlier[k]);
                        assert(graph.named_before(can_use_default, i as int, earlier[k]));
                        let at = choose|at: int|
                            0 <= at < i && at < graph.len() && #[trigger] graph.name(at) == earlier[k]
                                && graph.named_in_manifest(can_use_default, at);
                        assert(graph.name(at) == later[k]);
                    } else {
                        assert(graph.name(i as int) == later[k]);
                    }
                }
                assert forall|at: int|
                    0 <= at < i + 1 && graph.named_in_manifest(can_use_default, at) implies later.contains(
                    #[trigger] graph.name(at),
                ) by {
                    if at < i {
                        let k = choose|k: int| 0 <= k < earlier.len() && earlier[k] == graph.name(at);
                        assert(later[k] == graph.name(at));
                    } else {
                        assert(later[earlier.len() as int] == graph.name(at));
                    }
                }
            }
            i += 1;
        }
        let ghost unsorted = views(names@);
        let sorted = sort_names(names);
        proof {
            assert forall|name: Seq<char>|
                views(sorted@).contains(name) <==> exists|i: int|
                    graph.has_index(i) && #[trigger] graph.name(i) == name && graph.named_in_manifest(
                        self.spec_can_use_default(),
                        i,
                    ) by {
                if unsorted.contains(name) {
                    let k = choose|k: int| 0 <= k < unsorted.len() && unsorted[k] == name;
                    assert(graph.named_before(can_use_default, count as int, unsorted[k]));
                }
            }
        }
        sorted
    }

    /// The names of the enabled features, in table order.
    pub fn enabled_features(&self) -> (names: Vec<String>)
        ensures
            views(names@) == self.features@.enabled_list(),
    {
        let count = self.features.len();
        let mut picked: Vec<bool> = Vec::new();
        let mut i: usize = 0;
        while i < count
            invariant
                count == self.features@.len(),
                i <= count,
                picked@.len() == i,
                forall|k: int|
                    0 <= k < i ==> picked@[k] == (#[trigger] self.features@.entries[k]).feature.is_enabled(),
            decreases count - i,
        {
            picked.push(self.features.data_at(i).is_enabled());
            i += 1;
        }
        self.features.names_where(&picked, Ghost(|entry: FeatureEntry| entry.feature.is_enabled()))
    }

    /// The names of the features inherited from the workspace, in table
    /// order.
    pub fn inherited_features(&self) -> (names: Vec<String>)
        ensures
            views(names@) == self.features@.inherited_list(),
    {
        let count = self.features.len();
        let mut picked: Vec<bool> = Vec::new();
        let mut i: usize = 0;
        while i < count
            invariant
                count == self.features@.len(),
                i <= count,
                picked@.len() == i,
                forall|k: int|
                    0 <= k < i ==> picked@[k] == ((#[trigger] self.features@.entries[k]).feature.enabled_state
                        == EnabledState::Workspace),
            decreases count - i,
        {
            picked.push(!self.features.data_at(i).is_toggleable());
            i += 1;
        }
        self.features.names_where(
            &picked,
            Ghost(|entry: FeatureEntry| entry.feature.enabled_state == EnabledState::Workspace),
        )
    }

    /// The names of the enabled features that can be switched here, in
    /// table order.
    pub fn switchable_features(&self) -> (names: Vec<String>)
        ensures
            views(names@) == self.features@.switchable_list(),
    {
        let count = self.features.len();
        let mut picked: Vec<bool> = Vec::new();
        let mut i: usize = 0;
        while i < count
            invariant
                count == self.features@.len(),
                i <= count,
                picked@.len() == i,
                forall|k: int|
                    0 <= k < i ==> picked@[k] == ((#[trigger] self.features@.entries[k]).feature.enabled_state
                        == EnabledState::Normal(true)),
            decreases count - i,
        {
            let data = self.features.data_at(i);
            picked.push(data.is_toggleable() && data.is_enabled());
            i += 1;
        }
        self.features.names_where(
            &picked,
            Ghost(|entry: FeatureEntry| entry.feature.enabled_state == EnabledState::Normal(true)),
        )
    }

    /// Switches off the features called `names`, one after the other, each
    /// with what requires it. Names that the dependency does not hold are
    /// passed over.
    pub fn disable_features(&mut self, names: &Vec<String>)
        ensures
            final(self).same_declaration(old(self)),
            final(self).features@ == old(self).features@.disable_each(views(names@)),
    {
        let ghost start = self.features@;
        let mut k: usize = 0;
        while k < names.len()
            invariant
                k <= names.len(),
                self.same_declaration(old(self)),
                start == old(self).features@,
                self.features@ == start.disable_each(views(names@).take(k as int)),
            decreases names.len() - k,
        {
            let _ = self.disable_feature(names[k].as_str());
            proof {
                assert(views(names@).take(k + 1).drop_last() =~= views(names@).take(k as int));
                assert(views(names@).take(k + 1).last() == names@[k as int]@);
            }
            k += 1;
        }
        proof {
            assert(views(names@).take(names@.len() as int) =~= views(names@));
        }
    }

    /// Switches the features called `names` on, one after the other, each
    /// with what it implies.
    ///
    /// Fails at the first name that the dependency does not hold or whose
    /// cascade does not come to its end; what was changed up to then stays
    /// changed.
    pub fn enable_features(&mut self, names: &Vec<String>) -> (result: Result<(), Error>)
        ensures
            final(self).same_declaration(old(self)),
            old(self).features@.same_shape(final(self).features@),
            result is Ok <==> old(self).features@.enable_each(views(names@)) is Some,
            result is Ok ==> Some(final(self).features@) == old(self).features@.enable_each(
                views(names@),
            ),
            match result {
                Ok(_) => true,
                Err(Error::FeatureNotFound(name)) => !old(self).features@.contains(name@),
                Err(_) => false,
            },
    {
        let ghost start = self.features@;
        proof {
            FeatureGraph::lemma_same_shape_refl(start);
        }
        let mut k: usize = 0;
        while k < names.len()
            invariant
                k <= names.len(),
                self.same_declaration(old(self)),
                start == old(self).features@,
                start.same_shape(self.features@),
                Some(self.features@) == start.enable_each(views(names@).take(k as int)),
            decreases names.len() - k,
        {
            let ghost before = self.features@;
            proof {
                use_type_invariant(&self.features);
                assert(views(names@).take(k + 1).drop_last() =~= views(names@).take(k as int));
                assert(views(names@).take(k + 1).last() == names@[k as int]@);
                assert forall|n: Seq<char>| start.contains(n) == before.contains(n) by {
                    start.lemma_same_shape_contains(before, n);
                }
            }
            let enabled = self.enable_feature(names[k].as_str());
            proof {
                if before.contains(names@[k as int]@) {
                    FeatureGraph::lemma_same_shape_trans(start, before, self.features@);
                }
            }
            if let Err(error) = enabled {
                proof {
                    FeatureGraph::lemma_enable_each_stops(start, views(names@), k as int);
                }
                return Err(error);
            }
            k += 1;
        }
        proof {
            assert(views(names@).take(names@.len() as int) =~= views(names@));
        }
        Ok(())
    }

    /// Switches the features called `names` off, one after the other, each
    /// with what requires it.
    ///
    /// Fails at the first name that the dependency does not hold; what was
    /// changed up to then stays changed.
    pub fn disable_all_features(&mut self, names: &Vec<String>) -> (result: Result<(), Error>)
        ensures
            final(self).same_declaration(old(self)),
            old(self).features@.same_shape(final(self).features@),
            result is Ok <==> old(self).features@.disable_all(views(names@)) is Some,
            result is Ok ==> Some(final(self).features@) == old(self).features@.disable_all(
                views(names@),
            ),
            match result {
                Ok(_) => true,
                Err(Error::FeatureNotFound(name)) => !old(self).features@.contains(name@),
                Err(_) => false,
            },
    {
        let ghost start = self.features@;
        proof {
            FeatureGraph::lemma_same_shape_refl(start);
        }
        let mut k: usize = 0;
        while k < names.len()
            invariant
                k <= names.len(),
                self.same_declaration(old(self)),
                start == old(self).features@,
                start.same_shape(self.features@),
                Some(self.features@) == start.disable_all(views(names@).take(k as int)),
            decreases names.len() - k,
        {
            let ghost before = self.features@;
            proof {
                assert(views(names@).take(k + 1).drop_last() =~= views(names@).take(k as int));
                assert(views(names@).take(k + 1).last() == names@[k as int]@);
                assert forall|n: Seq<char>| start.contains(n) == before.contains(n) by {
                    start.lemma_same_shape_contains(before, n);
                }
            }
            let disabled = self.disable_feature(names[k].as_str());
            proof {
                if before.contains(names@[k as int]@) {
                    before.lemma_cascade(Direction::Disable, before.index_of(names@[k as int]@));
                }
                FeatureGraph::lemma_same_shape_trans(start, before, self.features@);
            }
            if let Err(error) = disabled {
                proof {
                    FeatureGraph::lemma_disable_all_stops(start, views(names@), k as int);
                }
                return Err(error);
            }
            k += 1;
        }
        proof {
            assert(views(names@).take(names@.len() as int) =~= views(names@));
        }
        Ok(())
    }

    /// Takes over the features that the workspace's declaration of this
    /// dependency has enabled, called `names`: what was inherited before is
    /// switched off, with what requires it; then each of `names` is switched
    /// on, with what it implies, and marked as inherited.
    ///
    /// Fails at the first of `names` that this dependency does not hold or
    /// whose cascade does not come to its end; what was changed up to then
    /// stays changed.
    pub fn inherit_features(&mut self, names: &Vec<String>) -> (result: Result<(), Error>)
        ensures
            final(self).same_declaration(old(self)),
            old(self).features@.same_shape(final(self).features@),
            result is Ok <==> old(self).features@.inherit(views(names@)) is Some,
            result is Ok ==> Some(final(self).features@) == old(self).features@.inherit(views(names@)),
            match result {
                Ok(_) => true,
                Err(Error::FeatureNotFound(name)) => !old(self).features@.contains(name@),
                Err(_) => false,
            },
    {
        let inherited = self.inherited_features();
        self.disable_features(&inherited);
        let ghost cleared = self.features@;
        proof {
            FeatureGraph::lemma_disable_each_shape(old(self).features@, views(inherited@));
        }
        let mut k: usize = 0;
        while k < names.len()
            invariant
                k <= names.len(),
                self.same_declaration(old(self)),
                cleared == old(self).features@.disable_each(old(self).features@.inherited_list()),
                old(self).features@.same_shape(cleared),
                cleared.same_shape(self.features@),
                Some(self.features@) == cleared.inherit_each(views(names@).take(k as int)),
            decreases names.len() - k,
        {
            let ghost before = self.features@;
            proof {
                use_type_invariant(&self.features);
                assert(views(names@).take(k + 1).drop_last() =~= views(names@).take(k as int));
                assert(views(names@).take(k + 1).last() == names@[k as int]@);
                assert forall|n: Seq<char>| old(self).features@.contains(n) == before.contains(n) by {
                    old(self).features@.lemma_same_shape_contains(cleared, n);
                    cleared.lemma_same_shape_contains(before, n);
                }
            }
            let enabled = self.enable_feature(names[k].as_str());
            if let Err(error) = enabled {
                proof {
                    FeatureGraph::lemma_inherit_each_stops(cleared, views(names@), k as int);
                    assert(old(self).features@.same_shape(self.features@)) by {
                        if before.contains(names@[k as int]@) {
                            FeatureGraph::lemma_same_shape_trans(old(self).features@, cleared, before);
                            FeatureGraph::lemma_same_shape_trans(old(self).features@, before, self.features@);
                        } else {
                            FeatureGraph::lemma_same_shape_trans(old(self).features@, cleared, before);
                        }
                    }
                }
                return Err(error);
            }
            let ghost switched = self.features@;
            let marked = self.set_feature_to_workspace(names[k].as_str());
            proof {
                let at = before.index_of(names@[k as int]@);
                before.lemma_same_shape_contains(switched, names@[k as int]@);
                assert(switched.entries[at].name == before.entries[at].name);
                before.lemma_same_shape_contains(cleared, names@[k as int]@);
                old(self).features@.lemma_same_shape_contains(cleared, names@[k as int]@);
                switched.lemma_index_of(at);
                switched.lemma_with_state(at, EnabledState::Workspace);
                FeatureGraph::lemma_same_shape_trans(before, switched, self.features@);
                FeatureGraph::lemma_same_shape_trans(cleared, before, self.features@);
            }
            k += 1;
        }
        proof {
            assert(views(names@).take(names@.len() as int) =~= views(names@));
            FeatureGraph::lemma_same_shape_trans(old(self).features@, cleared, self.features@);
        }
        Ok(())
    }

}

} // verus!
