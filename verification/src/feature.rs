//! Feature records: what a feature implies, whether it belongs to the default
//! set, and whether it is switched on.

use vstd::prelude::*;
use vstd::string::{StrSliceExecFns, StringExecFns};
use crate::markers::emoji_or;

verus! {

/// What an entry in a feature's list of implied names refers to.
#[derive(Clone, Copy, Debug, PartialEq, Eq, Structural)]
pub enum SubFeatureType {
    /// Another feature of the same dependency.
    Normal,
    /// An optional dependency, written `dep:name`.
    Dependency,
    /// A feature of another crate, written `crate/feature`.
    DependencyFeature,
}

/// Whether `name` starts with the four characters `dep:`.
pub open spec fn has_dep_prefix(name: Seq<char>) -> bool {
    &&& name.len() >= 4
    &&& name[0] == 'd'
    &&& name[1] == 'e'
    &&& name[2] == 'p'
    &&& name[3] == ':'
}

/// The kind that the written form of a sub-feature name stands for: a leading
/// `dep:` marks an optional dependency, otherwise a `/` anywhere marks a
/// feature of another crate, and every other name is a feature of the same
/// dependency.
pub open spec fn kind_of_name(name: Seq<char>) -> SubFeatureType {
    if has_dep_prefix(name) {
        SubFeatureType::Dependency
    } else if name.contains('/') {
        SubFeatureType::DependencyFeature
    } else {
        SubFeatureType::Normal
    }
}

impl SubFeatureType {
    /// Classifies a sub-feature by the way its name is written.
    pub fn from_name(name: &str) -> (kind: SubFeatureType)
        ensures
            kind == kind_of_name(name@),
    {
        assert(name@.skip(0) =~= name@);
        if starts_with_dep(name, 0) {
            return SubFeatureType::Dependency;
        }
        let len = name.unicode_len();
        let mut i: usize = 0;
        while i < len
            invariant
                len == name@.len(),
                i <= len,
                !has_dep_prefix(name@),
                forall|j: int| 0 <= j < i ==> name@[j] != '/',
            decreases len - i,
        {
            if name.get_char(i) == '/' {
                assert(name@[i as int] == '/');
                return SubFeatureType::DependencyFeature;
            }
            i += 1;
        }
        SubFeatureType::Normal
    }
}

impl<'a> From<&'a str> for SubFeatureType {
    fn from(name: &'a str) -> (kind: SubFeatureType) {
        SubFeatureType::from_name(name)
    }
}

impl<'a> vstd::std_specs::convert::FromSpecImpl<&'a str> for SubFeatureType {
    open spec fn obeys_from_spec() -> bool {
        true
    }

    open spec fn from_spec(name: &'a str) -> SubFeatureType {
        kind_of_name(name@)
    }
}

/// One entry in a feature's list of implied names.
#[derive(Debug)]
pub struct SubFeature {
    pub name: String,
    pub kind: SubFeatureType,
}

/// The mathematical content of a [`SubFeature`].
pub struct SubFeatureView {
    pub name: Seq<char>,
    pub kind: SubFeatureType,
}

impl View for SubFeature {
    type V = SubFeatureView;

    open spec fn view(&self) -> SubFeatureView {
        SubFeatureView { name: self.name@, kind: self.kind }
    }
}

impl Clone for SubFeature {
    fn clone(&self) -> (copy: SubFeature)
        ensures
            copy@ == self@,
    {
        SubFeature { name: self.name.clone(), kind: self.kind }
    }
}

/// Whether what follows the first `start` characters of `name` starts with
/// `dep:`.
pub fn starts_with_dep(name: &str, start: usize) -> (found: bool)
    ensures
        found == (start <= name@.len() && has_dep_prefix(name@.skip(start as int))),
        found ==> start + 4 <= name@.len(),
{
    let len = name.unicode_len();
    if len < 4 || start > len - 4 {
        return false;
    }
    let rest = Ghost(name@.skip(start as int));
    assert(rest@[0] == name@[start as int]);
    assert(rest@[1] == name@[start + 1]);
    assert(rest@[2] == name@[start + 2]);
    assert(rest@[3] == name@[start + 3]);
    name.get_char(start) == 'd' && name.get_char(start + 1) == 'e' && name.get_char(start + 2) == 'p'
        && name.get_char(start + 3) == ':'
}

/// The name without the `dep:` that it starts with, however often.
pub open spec fn without_dep_prefix(name: Seq<char>) -> Seq<char>
    decreases name.len(),
{
    if has_dep_prefix(name) {
        without_dep_prefix(name.skip(4))
    } else {
        name
    }
}

impl SubFeature {
    /// The entry as it is shown: the name as it is but for an optional
    /// dependency, whose `dep:` is replaced by a mark, an emoji where the
    /// terminal is taken to show it and one `dep:` where it is not.
    pub fn shown(&self) -> (text: String)
        ensures
            self.kind != SubFeatureType::Dependency ==> text@ == self.name@,
            self.kind == SubFeatureType::Dependency ==> text@ == "📦"@ + without_dep_prefix(self.name@)
                || text@ == "dep:"@ + without_dep_prefix(self.name@),
    {
        match self.kind {
            SubFeatureType::Dependency => {
                let name = self.name.as_str();
                let len = name.unicode_len();
                let mut start: usize = 0;
                assert(name@.skip(0) =~= name@);
                while starts_with_dep(name, start)
                    invariant
                        len == name@.len(),
                        start <= len,
                        without_dep_prefix(name@) == without_dep_prefix(name@.skip(start as int)),
                    decreases len - start,
                {
                    proof {
                        assert(name@.skip(start as int).skip(4) =~= name@.skip(start + 4));
                    }
                    start += 4;
                }
                proof {
                    assert(name@.skip(start as int) =~= name@.subrange(start as int, len as int));
                }
                let mut text = emoji_or("📦", "dep:");
                text.append(name.substring_char(start, len));
                text
            },
            _ => self.name.clone(),
        }
    }

    /// A sub-feature entry for `name`, of the kind that its written form
    /// stands for.
    pub fn new(name: &str) -> (sub: SubFeature)
        ensures
            sub@.name == name@,
            sub@.kind == kind_of_name(name@),
    {
        SubFeature { name: name.to_owned(), kind: SubFeatureType::from_name(name) }
    }
}

/// Whether a feature is switched on, and who decides.
#[derive(Clone, Copy, Debug, PartialEq, Eq, Structural)]
pub enum EnabledState {
    /// Chosen for this dependency alone; the flag says whether it is on.
    Normal(bool),
    /// On because the workspace's declaration of the dependency has it on.
    Workspace,
}

impl EnabledState {
    /// A feature counts as enabled when it is switched on locally or
    /// inherited from the workspace.
    pub open spec fn on(self) -> bool {
        match self {
            EnabledState::Normal(enabled) => enabled,
            EnabledState::Workspace => true,
        }
    }
}

/// What is recorded of one feature of a dependency.
#[derive(Debug)]
pub struct FeatureData {
    pub sub_features: Vec<SubFeature>,
    pub is_default: bool,
    pub enabled_state: EnabledState,
}

/// The mathematical content of a [`FeatureData`].
pub struct FeatureView {
    pub sub_features: Seq<SubFeatureView>,
    pub is_default: bool,
    pub enabled_state: EnabledState,
}

impl FeatureView {
    pub open spec fn is_enabled(self) -> bool {
        self.enabled_state.on()
    }

    /// Whether `name` occurs among the implied names, whatever its kind.
    pub open spec fn lists(self, name: Seq<char>) -> bool {
        exists|k: int| 0 <= k < self.sub_features.len() && #[trigger] self.sub_features[k].name == name
    }

    /// Whether `name` occurs among the implied names as a feature of the
    /// same dependency.
    pub open spec fn lists_normal(self, name: Seq<char>) -> bool {
        exists|k: int|
            0 <= k < self.sub_features.len() && (#[trigger] self.sub_features[k]).name == name
                && self.sub_features[k].kind == SubFeatureType::Normal
    }

    /// Whether some implied name is an optional dependency or a feature of
    /// another crate.
    pub open spec fn has_dependency_features(self) -> bool {
        exists|k: int|
            0 <= k < self.sub_features.len() && (#[trigger] self.sub_features[k]).kind
                != SubFeatureType::Normal
    }

    /// The same feature in another state.
    pub open spec fn with_state(self, state: EnabledState) -> FeatureView {
        FeatureView { enabled_state: state, ..self }
    }
}

impl View for FeatureData {
    type V = FeatureView;

    open spec fn view(&self) -> FeatureView {
        FeatureView {
            sub_features: self.sub_features@.map_values(|sub: SubFeature| sub@),
            is_default: self.is_default,
            enabled_state: self.enabled_state,
        }
    }
}

impl Clone for FeatureData {
    fn clone(&self) -> (copy: FeatureData)
        ensures
            copy@ == self@,
    {
        let mut sub_features: Vec<SubFeature> = Vec::new();
        let mut i: usize = 0;
        while i < self.sub_features.len()
            invariant
                i <= self.sub_features.len(),
                sub_features.len() == i,
                forall|k: int| 0 <= k < i ==> sub_features@[k]@ == self.sub_features@[k]@,
            decreases self.sub_features.len() - i,
        {
            sub_features.push(self.sub_features[i].clone());
            i += 1;
        }
        let copy = FeatureData {
            sub_features,
            is_default: self.is_default,
            enabled_state: self.enabled_state,
        };
        assert(copy@.sub_features =~= self@.sub_features);
        copy
    }
}

impl FeatureData {
    /// A feature is enabled when it is switched on here or inherited from
    /// the workspace.
    pub fn is_enabled(&self) -> (enabled: bool)
        ensures
            enabled == self@.is_enabled(),
    {
        match self.enabled_state {
            EnabledState::Normal(is_enabled) => is_enabled,
            EnabledState::Workspace => true,
        }
    }

    /// A feature inherited from the workspace cannot be switched here.
    pub fn is_toggleable(&self) -> (toggleable: bool)
        ensures
            toggleable == (self@.enabled_state != EnabledState::Workspace),
    {
        match self.enabled_state {
            EnabledState::Normal(_) => true,
            EnabledState::Workspace => false,
        }
    }

    /// Whether the feature lists an optional dependency or a feature of
    /// another crate.
    pub fn has_dependency_features(&self) -> (found: bool)
        ensures
            found == self@.has_dependency_features(),
    {
        let mut i: usize = 0;
        while i < self.sub_features.len()
            invariant
                i <= self.sub_features.len(),
                forall|k: int| 0 <= k < i ==> (#[trigger] self@.sub_features[k]).kind == SubFeatureType::Normal,
            decreases self.sub_features.len() - i,
        {
            match self.sub_features[i].kind {
                SubFeatureType::Normal => {},
                _ => {
                    assert(self@.sub_features[i as int].kind != SubFeatureType::Normal);
                    return true;
                },
            }
            i += 1;
        }
        false
    }
}

} // verus!
