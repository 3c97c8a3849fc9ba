//! The mathematical model of a dependency's features: a table of named
//! feature records, and the sets of features that a cascade reaches.

use vstd::prelude::*;
use vstd::set_lib::{lemma_int_range, lemma_len_subset, set_int_range};
use crate::feature::{EnabledState, FeatureView, SubFeatureType};

verus! {

/// A feature under its name.
pub struct FeatureEntry {
    pub name: Seq<char>,
    pub feature: FeatureView,
}

/// The two cascades: switching a feature on carries over to what it implies,
/// switching it off carries over to what requires it.
pub enum Direction {
    Enable,
    Disable,
}

/// The features of one dependency, in table order.
pub struct FeatureGraph {
    pub entries: Seq<FeatureEntry>,
}

impl FeatureGraph {
    pub open spec fn len(self) -> nat {
        self.entries.len()
    }

    pub open spec fn has_index(self, i: int) -> bool {
        0 <= i < self.entries.len()
    }

    pub open spec fn name(self, i: int) -> Seq<char> {
        self.entries[i].name
    }

    pub open spec fn feature(self, i: int) -> FeatureView {
        self.entries[i].feature
    }

    pub open spec fn state(self, i: int) -> EnabledState {
        self.entries[i].feature.enabled_state
    }

    pub open spec fn enabled(self, i: int) -> bool {
        self.entries[i].feature.is_enabled()
    }

    /// No name occurs twice.
    pub open spec fn wf(self) -> bool {
        forall|i: int, j: int|
            0 <= i < self.entries.len() && 0 <= j < self.entries.len() && i != j
                ==> self.entries[i].name != self.entries[j].name
    }

    pub open spec fn contains(self, name: Seq<char>) -> bool {
        exists|i: int| 0 <= i < self.entries.len() && (#[trigger] self.entries[i]).name == name
    }

    /// The place of `name` in the table, where it has one.
    pub open spec fn index_of(self, name: Seq<char>) -> int {
        choose|i: int| 0 <= i < self.entries.len() && (#[trigger] self.entries[i]).name == name
    }

    /// The record under `name`, if there is one.
    pub open spec fn get(self, name: Seq<char>) -> Option<FeatureView> {
        if self.contains(name) {
            Some(self.entries[self.index_of(name)].feature)
        } else {
            None
        }
    }

    /// The names in table order.
    pub open spec fn names(self) -> Seq<Seq<char>> {
        Seq::new(self.entries.len(), |i: int| self.entries[i].name)
    }

    /// The names of the enabled features, as a set.
    pub open spec fn enabled_names(self) -> Set<Seq<char>> {
        Set::new(
            |name: Seq<char>|
                exists|i: int|
                    0 <= i < self.entries.len() && (#[trigger] self.entries[i]).name == name
                        && self.entries[i].feature.is_enabled(),
        )
    }

    /// The same table with the feature at `i` in another state.
    pub open spec fn with_state(self, i: int, state: EnabledState) -> FeatureGraph {
        FeatureGraph {
            entries: self.entries.update(
                i,
                FeatureEntry { name: self.entries[i].name, feature: self.entries[i].feature.with_state(state) },
            ),
        }
    }

    /// The states of the features, in table order.
    pub open spec fn states(self) -> Seq<EnabledState> {
        Seq::new(self.entries.len(), |i: int| self.entries[i].feature.enabled_state)
    }

    /// The same table with the features in the given states.
    pub open spec fn with_states(self, states: Seq<EnabledState>) -> FeatureGraph {
        FeatureGraph {
            entries: Seq::new(
                self.entries.len(),
                |i: int|
                    FeatureEntry {
                        name: self.entries[i].name,
                        feature: self.entries[i].feature.with_state(states[i]),
                    },
            ),
        }
    }

    /// The same table with one more feature at its end.
    pub open spec fn push(self, name: Seq<char>, feature: FeatureView) -> FeatureGraph {
        FeatureGraph { entries: self.entries.push(FeatureEntry { name, feature }) }
    }

    /// The same table with another record at `i`, under the name that was
    /// there.
    pub open spec fn with_feature(self, i: int, feature: FeatureView) -> FeatureGraph {
        FeatureGraph {
            entries: self.entries.update(i, FeatureEntry { name: self.entries[i].name, feature }),
        }
    }

    /// Two tables that differ at most in the states of their features.
    pub open spec fn same_shape(self, other: FeatureGraph) -> bool {
        &&& self.entries.len() == other.entries.len()
        &&& forall|i: int|
            0 <= i < self.entries.len() ==> {
                &&& (#[trigger] self.entries[i]).name == other.entries[i].name
                &&& self.entries[i].feature.sub_features == other.entries[i].feature.sub_features
                &&& self.entries[i].feature.is_default == other.entries[i].feature.is_default
            }
    }

    /// Feature `i` lists feature `j` as a feature of the same dependency.
    pub open spec fn implies(self, i: int, j: int) -> bool {
        &&& self.has_index(i)
        &&& self.has_index(j)
        &&& self.entries[i].feature.lists_normal(self.entries[j].name)
    }

    /// Feature `i` lists feature `j` among its implied names, whatever the
    /// kind of the entry.
    pub open spec fn requires_feature(self, i: int, j: int) -> bool {
        &&& self.has_index(i)
        &&& self.has_index(j)
        &&& self.entries[i].feature.lists(self.entries[j].name)
    }

    /// Feature `i` lists a feature of the same dependency that the table
    /// does not hold.
    pub open spec fn missing_sub_feature(self, i: int) -> bool {
        exists|k: int|
            0 <= k < self.entries[i].feature.sub_features.len() && (
            #[trigger] self.entries[i].feature.sub_features[k]).kind == SubFeatureType::Normal
                && !self.contains(self.entries[i].feature.sub_features[k].name)
    }

    /// Every enabled feature has the features it implies enabled too.
    pub open spec fn closed(self) -> bool {
        forall|i: int, j: int| #[trigger]
            self.implies(i, j) && self.enabled(i) ==> self.enabled(j)
    }

    /// A feature that a cascade in direction `dir` has yet to change: one
    /// that is off when enabling, one that is on when disabling.
    pub open spec fn pending(self, dir: Direction, i: int) -> bool {
        match dir {
            Direction::Enable => !self.enabled(i),
            Direction::Disable => self.enabled(i),
        }
    }

    /// The state that a cascade in direction `dir` leaves a feature in.
    pub open spec fn target(dir: Direction) -> EnabledState {
        match dir {
            Direction::Enable => EnabledState::Normal(true),
            Direction::Disable => EnabledState::Normal(false),
        }
    }

    /// A cascade in direction `dir` that changes `i` goes on to `j`.
    pub open spec fn passes(self, dir: Direction, i: int, j: int) -> bool {
        match dir {
            Direction::Enable => self.implies(i, j),
            Direction::Disable => self.requires_feature(j, i),
        }
    }

    /// A chain of features that a cascade walks along: each has yet to be
    /// changed, and the cascade passes from each to the next.
    pub open spec fn is_chain(self, dir: Direction, chain: Seq<int>) -> bool {
        &&& chain.len() > 0
        &&& forall|k: int|
            0 <= k < chain.len() ==> self.has_index(#[trigger] chain[k]) && self.pending(
                dir,
                chain[k],
            )
        &&& forall|k: int|
            0 <= k < chain.len() - 1 ==> self.passes(dir, #[trigger] chain[k], chain[k + 1])
    }

    /// A cascade in direction `dir` that starts at `from` changes `to`.
    pub open spec fn reaches(self, dir: Direction, from: int, to: int) -> bool {
        exists|chain: Seq<int>| #[trigger]
            self.is_chain(dir, chain) && chain[0] == from && chain.last() == to
    }

    /// The table after a cascade in direction `dir` from the feature at
    /// `from`: every feature that the cascade reaches is in the target state,
    /// every other feature as it was.
    pub open spec fn cascade(self, dir: Direction, from: int) -> FeatureGraph {
        FeatureGraph {
            entries: Seq::new(
                self.entries.len(),
                |i: int|
                    if self.reaches(dir, from, i) {
                        FeatureEntry {
                            name: self.entries[i].name,
                            feature: self.entries[i].feature.with_state(Self::target(dir)),
                        }
                    } else {
                        self.entries[i]
                    },
            ),
        }
    }

    /// An enabling cascade from `from` comes upon a feature that lists a
    /// feature the table does not hold.
    pub open spec fn enable_fails(self, from: int) -> bool {
        exists|i: int| #[trigger]
            self.reaches(Direction::Enable, from, i) && self.missing_sub_feature(i)
    }

    /// Every feature of the default set is enabled.
    pub open spec fn defaults_enabled(self) -> bool {
        forall|i: int|
            self.has_index(i) && (#[trigger] self.entries[i]).feature.is_default
                ==> self.entries[i].feature.is_enabled()
    }

    /// What switching the feature called `name` on may leave behind, and
    /// whether it succeeds. Without a feature of that name nothing changes
    /// and the call fails. Otherwise the call succeeds unless the cascade
    /// comes upon a feature that lists a name the table does not hold; on
    /// success the table is the end of the cascade, on failure some stage of
    /// it.
    pub open spec fn enable_outcome(self, name: Seq<char>, after: FeatureGraph, ok: bool) -> bool {
        if !self.contains(name) {
            !ok && after == self
        } else {
            let from = self.index_of(name);
            &&& ok == !self.enable_fails(from)
            &&& ok ==> after == self.cascade(Direction::Enable, from)
            &&& self.same_shape(after)
            &&& after.enabled(from)
            &&& forall|i: int|
                self.has_index(i) ==> #[trigger] after.state(i) == self.state(i) || (self.reaches(
                    Direction::Enable,
                    from,
                    i,
                ) && after.state(i) == EnabledState::Normal(true))
        }
    }

    /// The table after switching the feature called `name` off: the end of
    /// the cascade from it, or the table itself where it holds no such
    /// feature.
    pub open spec fn disable_feature(self, name: Seq<char>) -> FeatureGraph {
        if self.contains(name) {
            self.cascade(Direction::Disable, self.index_of(name))
        } else {
            self
        }
    }

    /// The table with the feature called `name` marked as inherited from the
    /// workspace, or the table itself where it holds no such feature.
    pub open spec fn set_to_workspace(self, name: Seq<char>) -> FeatureGraph {
        if self.contains(name) {
            self.with_state(self.index_of(name), EnabledState::Workspace)
        } else {
            self
        }
    }

    /// What toggling the feature called `name` may leave behind, and whether
    /// it succeeds: a feature that is on is switched off, one that is off is
    /// switched on, and one inherited from the workspace is left alone.
    pub open spec fn toggle_outcome(self, name: Seq<char>, after: FeatureGraph, ok: bool) -> bool {
        if !self.contains(name) {
            !ok && after == self
        } else {
            match self.state(self.index_of(name)) {
                EnabledState::Normal(true) => ok && after == self.disable_feature(name),
                EnabledState::Normal(false) => self.enable_outcome(name, after, ok),
                EnabledState::Workspace => ok && after == self,
            }
        }
    }

    /// The features that list `name` among their implied names, whatever the
    /// kind of the entry, by name and in table order.
    pub open spec fn dependents(self, name: Seq<char>) -> Seq<Seq<char>> {
        self.entries.filter(|entry: FeatureEntry| entry.feature.lists(name)).map_values(
            |entry: FeatureEntry| entry.name,
        )
    }

    /// The enabled features among the dependents of `name`.
    pub open spec fn current_dependents(self, name: Seq<char>) -> Seq<Seq<char>> {
        self.entries.filter(
            |entry: FeatureEntry| entry.feature.lists(name) && entry.feature.is_enabled(),
        ).map_values(|entry: FeatureEntry| entry.name)
    }

    /// Some other feature that is enabled lists the feature at `i`.
    pub open spec fn has_other_dependent(self, i: int) -> bool {
        exists|j: int|
            self.has_index(j) && j != i && (#[trigger] self.entries[j]).feature.is_enabled()
                && self.entries[j].feature.lists(self.name(i))
    }

    /// The feature at `i` has to be named in the manifest: it is enabled,
    /// does not come with the default set where that is in use, is not
    /// inherited from the workspace, is not the default set itself, and no
    /// other enabled feature lists it (which would switch it on anyway).
    pub open spec fn named_in_manifest(self, uses_default: bool, i: int) -> bool {
        &&& self.enabled(i)
        &&& !(uses_default && self.feature(i).is_default)
        &&& self.state(i) != EnabledState::Workspace
        &&& self.name(i) != "default"@
        &&& !self.has_other_dependent(i)
    }

    /// One of the first `upto` features is called `name` and has to be named
    /// in the manifest.
    pub open spec fn named_before(self, uses_default: bool, upto: int, name: Seq<char>) -> bool {
        exists|at: int|
            0 <= at < upto && at < self.len() && #[trigger] self.name(at) == name
                && self.named_in_manifest(uses_default, at)
    }

    /// The names of the features to show that are inside, or outside, the
    /// default set, in table order: the feature called `default` is not
    /// shown.
    pub open spec fn shown_list(self, default: bool) -> Seq<Seq<char>> {
        self.entries.filter(
            |entry: FeatureEntry| entry.name != "default"@ && entry.feature.is_default == default,
        ).map_values(|entry: FeatureEntry| entry.name)
    }

    /// The names of the features to show, in table order.
    pub open spec fn shown_list_all(self) -> Seq<Seq<char>> {
        self.entries.filter(|entry: FeatureEntry| entry.name != "default"@).map_values(
            |entry: FeatureEntry| entry.name,
        )
    }

    /// A choice among the features of a table holds no name twice.
    pub proof fn lemma_picked_names_unique(self, pick: spec_fn(FeatureEntry) -> bool)
        requires
            self.wf(),
        ensures
            self.entries.filter(pick).map_values(|entry: FeatureEntry| entry.name).no_duplicates(),
    {
        let picked = self.entries.filter(pick);
        let names = picked.map_values(|entry: FeatureEntry| entry.name);
        assert(self.entries.no_duplicates()) by {
            assert forall|i: int, j: int|
                0 <= i < self.entries.len() && 0 <= j < self.entries.len() && i != j implies self.entries[i]
                != self.entries[j] by {
                assert(self.entries[i].name != self.entries[j].name);
            }
        }
        crate::closure::lemma_filter_holds(self.entries, pick);
        assert forall|i: int, j: int| 0 <= i < names.len() && 0 <= j < names.len() && i != j implies names[i]
            != names[j] by {
            assert(picked.contains(picked[i]));
            assert(picked.contains(picked[j]));
            assert(self.entries.contains(picked[i]));
            assert(self.entries.contains(picked[j]));
            let a = choose|a: int| 0 <= a < self.entries.len() && self.entries[a] == picked[i];
            let b = choose|b: int| 0 <= b < self.entries.len() && self.entries[b] == picked[j];
            assert(picked[i] != picked[j]);
            assert(a != b);
        }
    }

    /// The features to show hold no name twice.
    pub proof fn lemma_shown_lists_unique(self, default: bool)
        requires
            self.wf(),
        ensures
            self.shown_list(default).no_duplicates(),
            self.shown_list_all().no_duplicates(),
    {
        self.lemma_picked_names_unique(
            |entry: FeatureEntry| entry.name != "default"@ && entry.feature.is_default == default,
        );
        self.lemma_picked_names_unique(|entry: FeatureEntry| entry.name != "default"@);
    }

    /// The names of the enabled features, in table order.
    pub open spec fn enabled_list(self) -> Seq<Seq<char>> {
        self.entries.filter(|entry: FeatureEntry| entry.feature.is_enabled()).map_values(
            |entry: FeatureEntry| entry.name,
        )
    }

    /// The names of the features inherited from the workspace, in table
    /// order.
    pub open spec fn inherited_list(self) -> Seq<Seq<char>> {
        self.entries.filter(
            |entry: FeatureEntry| entry.feature.enabled_state == EnabledState::Workspace,
        ).map_values(|entry: FeatureEntry| entry.name)
    }

    /// The names of the enabled features that can be switched here, in
    /// table order.
    pub open spec fn switchable_list(self) -> Seq<Seq<char>> {
        self.entries.filter(
            |entry: FeatureEntry| entry.feature.enabled_state == EnabledState::Normal(true),
        ).map_values(|entry: FeatureEntry| entry.name)
    }

    /// The table after switching the feature called `name` on, if the table
    /// holds the name and the cascade comes to its end.
    pub open spec fn enable_feature(self, name: Seq<char>) -> Option<FeatureGraph> {
        if self.contains(name) && !self.enable_fails(self.index_of(name)) {
            Some(self.cascade(Direction::Enable, self.index_of(name)))
        } else {
            None
        }
    }

    /// The table after switching the features called `names` on, one after
    /// the other, if each of them can be switched on.
    pub open spec fn enable_each(self, names: Seq<Seq<char>>) -> Option<FeatureGraph>
        decreases names.len(),
    {
        if names.len() == 0 {
            Some(self)
        } else {
            match self.enable_each(names.drop_last()) {
                Some(earlier) => earlier.enable_feature(names.last()),
                None => None,
            }
        }
    }

    /// The table after switching off the features called `names`, one after
    /// the other, if the table holds each of them.
    pub open spec fn disable_all(self, names: Seq<Seq<char>>) -> Option<FeatureGraph>
        decreases names.len(),
    {
        if names.len() == 0 {
            Some(self)
        } else {
            match self.disable_all(names.drop_last()) {
                Some(earlier) => if earlier.contains(names.last()) {
                    Some(earlier.disable_feature(names.last()))
                } else {
                    None
                },
                None => None,
            }
        }
    }

    /// The table after switching off the features called `names`, one after
    /// the other.
    pub open spec fn disable_each(self, names: Seq<Seq<char>>) -> FeatureGraph
        decreases names.len(),
    {
        if names.len() == 0 {
            self
        } else {
            self.disable_each(names.drop_last()).disable_feature(names.last())
        }
    }

    /// The table after switching the feature called `name` on and marking
    /// it as inherited from the workspace, if the table holds the name and
    /// the cascade comes to its end.
    pub open spec fn inherit_feature(self, name: Seq<char>) -> Option<FeatureGraph> {
        if self.contains(name) && !self.enable_fails(self.index_of(name)) {
            Some(
                self.cascade(Direction::Enable, self.index_of(name)).with_state(
                    self.index_of(name),
                    EnabledState::Workspace,
                ),
            )
        } else {
            None
        }
    }

    /// The table after inheriting the features called `names`, one after
    /// the other, if each of them can be inherited.
    pub open spec fn inherit_each(self, names: Seq<Seq<char>>) -> Option<FeatureGraph>
        decreases names.len(),
    {
        if names.len() == 0 {
            Some(self)
        } else {
            match self.inherit_each(names.drop_last()) {
                Some(earlier) => earlier.inherit_feature(names.last()),
                None => None,
            }
        }
    }

    /// The table after taking over the workspace's enabled features, called
    /// `names`: what was inherited before is switched off, then each of
    /// `names` is switched on and marked as inherited.
    pub open spec fn inherit(self, names: Seq<Seq<char>>) -> Option<FeatureGraph> {
        self.disable_each(self.inherited_list()).inherit_each(names)
    }

    /// The features that a cascade in direction `dir` could still change.
    pub open spec fn pending_set(self, dir: Direction) -> Set<int> {
        Set::new(|i: int| self.has_index(i) && self.pending(dir, i))
    }

    /// `later` is a stage of the cascade in direction `dir` that started at
    /// `from` in `self`: the start itself has been changed, nothing but what
    /// the cascade reaches has been changed, and every changed feature other
    /// than the start has passed the change on.
    pub open spec fn stage_of_cascade(self, dir: Direction, from: int, later: FeatureGraph) -> bool {
        &&& self.same_shape(later)
        &&& self.has_index(from)
        &&& self.pending(dir, from)
        &&& !later.pending(dir, from)
        &&& forall|i: int|
            self.has_index(i) ==> #[trigger] later.state(i) == self.state(i) || (self.reaches(
                dir,
                from,
                i,
            ) && later.state(i) == Self::target(dir))
        &&& forall|i: int, j: int|
            self.has_index(i) && self.has_index(j) && i != from && self.pending(dir, i)
                && !later.pending(dir, i) && #[trigger] self.passes(dir, i, j) ==> !later.pending(
                dir,
                j,
            )
    }

    /// Putting the features of a table into the states of a table of the
    /// same shape gives that table.
    pub proof fn lemma_with_states(self, other: FeatureGraph)
        requires
            self.same_shape(other),
        ensures
            self.with_states(other.states()) == other,
    {
        assert forall|i: int| 0 <= i < self.entries.len() implies self.with_states(
            other.states(),
        ).entries[i] == other.entries[i] by {
            assert(self.entries[i].name == other.entries[i].name);
        }
        assert(self.with_states(other.states()).entries =~= other.entries);
    }

    /// In a table without repeated names a name is found at its own place.
    pub proof fn lemma_index_of(self, i: int)
        requires
            self.wf(),
            self.has_index(i),
        ensures
            self.contains(self.name(i)),
            self.index_of(self.name(i)) == i,
    {
        assert(self.entries[i].name == self.name(i));
    }

    /// Changing a state changes neither names nor what features imply.
    pub proof fn lemma_with_state(self, i: int, state: EnabledState)
        requires
            self.has_index(i),
        ensures
            self.same_shape(self.with_state(i, state)),
            self.with_state(i, state).state(i) == state,
            forall|k: int|
                self.has_index(k) && k != i ==> #[trigger] self.with_state(i, state).entries[k]
                    == self.entries[k],
            self.wf() ==> self.with_state(i, state).wf(),
    {
    }

    /// Tables of the same shape hold the same names.
    pub proof fn lemma_same_shape_contains(self, other: FeatureGraph, name: Seq<char>)
        requires
            self.same_shape(other),
        ensures
            self.contains(name) == other.contains(name),
            self.wf() == other.wf(),
    {
        if self.contains(name) {
            let i = self.index_of(name);
            assert(other.entries[i].name == name);
        }
        if other.contains(name) {
            let i = other.index_of(name);
            assert(self.entries[i].name == name);
        }
        if self.wf() {
            assert forall|i: int, j: int|
                0 <= i < other.entries.len() && 0 <= j < other.entries.len() && i != j implies other.entries[i].name
                != other.entries[j].name by {
                assert(self.entries[i].name == other.entries[i].name);
                assert(self.entries[j].name == other.entries[j].name);
            }
        }
        if other.wf() {
            assert forall|i: int, j: int|
                0 <= i < self.entries.len() && 0 <= j < self.entries.len() && i != j implies self.entries[i].name
                != self.entries[j].name by {
                assert(self.entries[i].name == other.entries[i].name);
                assert(self.entries[j].name == other.entries[j].name);
            }
        }
    }

    /// In tables of the same shape a cascade passes along the same ways.
    pub proof fn lemma_same_shape_passes(self, other: FeatureGraph, dir: Direction, i: int, j: int)
        requires
            self.same_shape(other),
        ensures
            self.passes(dir, i, j) == other.passes(dir, i, j),
            self.has_index(i) ==> self.missing_sub_feature(i) == other.missing_sub_feature(i),
    {
        if self.has_index(i) && self.has_index(j) {
            assert(self.entries[i].name == other.entries[i].name);
            assert(self.entries[j].name == other.entries[j].name);
        }
        if self.has_index(i) {
            assert(self.entries[i].name == other.entries[i].name);
            let subs = self.entries[i].feature.sub_features;
            assert forall|k: int| 0 <= k < subs.len() implies self.contains(subs[k].name)
                == other.contains(subs[k].name) by {
                self.lemma_same_shape_contains(other, subs[k].name);
            }
        }
    }

    /// A cascade changes the feature it starts at, if that is pending.
    pub proof fn lemma_reaches_start(self, dir: Direction, from: int)
        requires
            self.has_index(from),
            self.pending(dir, from),
        ensures
            self.reaches(dir, from, from),
    {
        let chain = seq![from];
        assert(self.is_chain(dir, chain) && chain[0] == from && chain.last() == from);
    }

    /// A cascade starts at a pending feature of the table and changes
    /// pending features of the table only.
    pub proof fn lemma_reaches_pending(self, dir: Direction, from: int, to: int)
        requires
            self.reaches(dir, from, to),
        ensures
            self.has_index(from),
            self.pending(dir, from),
            self.has_index(to),
            self.pending(dir, to),
    {
        let chain = choose|chain: Seq<int>| #[trigger]
            self.is_chain(dir, chain) && chain[0] == from && chain.last() == to;
        assert(self.has_index(chain[0]));
        assert(self.has_index(chain[chain.len() - 1]));
    }

    /// A cascade that changes `via` goes on to each pending feature that it
    /// passes to from there.
    pub proof fn lemma_reaches_next(self, dir: Direction, from: int, via: int, to: int)
        requires
            self.reaches(dir, from, via),
            self.passes(dir, via, to),
            self.has_index(to),
            self.pending(dir, to),
        ensures
            self.reaches(dir, from, to),
    {
        let chain = choose|chain: Seq<int>| #[trigger]
            self.is_chain(dir, chain) && chain[0] == from && chain.last() == via;
        let longer = chain.push(to);
        assert forall|k: int| 0 <= k < longer.len() implies self.has_index(#[trigger] longer[k])
            && self.pending(dir, longer[k]) by {
            if k < chain.len() {
                assert(longer[k] == chain[k]);
            }
        }
        assert forall|k: int| 0 <= k < longer.len() - 1 implies self.passes(
            dir,
            #[trigger] longer[k],
            longer[k + 1],
        ) by {
            if k < chain.len() - 1 {
                assert(longer[k] == chain[k]);
                assert(longer[k + 1] == chain[k + 1]);
            }
        }
        assert(self.is_chain(dir, longer) && longer[0] == from && longer.last() == to);
    }

    /// What a cascade reaches from a feature that the start passes to, in a
    /// later stage, the cascade from the start reaches too.
    pub proof fn lemma_reaches_through(
        self,
        later: FeatureGraph,
        dir: Direction,
        from: int,
        via: int,
        to: int,
    )
        requires
            self.same_shape(later),
            self.has_index(from),
            self.pending(dir, from),
            forall|i: int| self.has_index(i) && #[trigger] later.pending(dir, i) ==> self.pending(dir, i),
            self.passes(dir, from, via),
            later.reaches(dir, via, to),
        ensures
            self.reaches(dir, from, to),
    {
        let chain = choose|chain: Seq<int>| #[trigger]
            later.is_chain(dir, chain) && chain[0] == via && chain.last() == to;
        let longer = seq![from] + chain;
        assert forall|k: int| 0 <= k < longer.len() implies self.has_index(#[trigger] longer[k])
            && self.pending(dir, longer[k]) by {
            if k > 0 {
                assert(longer[k] == chain[k - 1]);
                assert(later.has_index(chain[k - 1]));
            }
        }
        assert forall|k: int| 0 <= k < longer.len() - 1 implies self.passes(
            dir,
            #[trigger] longer[k],
            longer[k + 1],
        ) by {
            if k > 0 {
                assert(longer[k] == chain[k - 1]);
                assert(longer[k + 1] == chain[k]);
                assert(later.passes(dir, chain[k - 1], chain[k - 1 + 1]));
                self.lemma_same_shape_passes(later, dir, chain[k - 1], chain[k]);
            } else {
                assert(longer[1] == chain[0]);
            }
        }
        assert(longer.last() == chain.last());
        assert(self.is_chain(dir, longer) && longer[0] == from && longer.last() == to);
    }

    /// Along a chain from the start, every feature has been changed once
    /// each changed feature has passed the change on.
    proof fn lemma_chain_changed(self, later: FeatureGraph, dir: Direction, chain: Seq<int>, k: int)
        requires
            self.same_shape(later),
            self.is_chain(dir, chain),
            !later.pending(dir, chain[0]),
            forall|i: int, j: int|
                self.has_index(i) && self.has_index(j) && self.pending(dir, i) && !later.pending(
                    dir,
                    i,
                ) && #[trigger] self.passes(dir, i, j) ==> !later.pending(dir, j),
            0 <= k < chain.len(),
        ensures
            !later.pending(dir, chain[k]),
        decreases k,
    {
        if k > 0 {
            self.lemma_chain_changed(later, dir, chain, k - 1);
            assert(self.has_index(chain[k - 1]) && self.pending(dir, chain[k - 1]));
            assert(self.has_index(chain[k]));
            assert(self.passes(dir, chain[k - 1], chain[k - 1 + 1]));
        }
    }

    /// A stage of a cascade in which the start too has passed the change on
    /// is the end of the cascade.
    pub proof fn lemma_stage_complete(self, dir: Direction, from: int, later: FeatureGraph)
        requires
            self.stage_of_cascade(dir, from, later),
            forall|j: int|
                self.has_index(j) && #[trigger] self.passes(dir, from, j) ==> !later.pending(dir, j),
        ensures
            later == self.cascade(dir, from),
            forall|i: int| #[trigger]
                self.reaches(dir, from, i) ==> self.pending(dir, i) && !later.pending(dir, i),
    {
        assert forall|i: int| #[trigger] self.reaches(dir, from, i) implies self.pending(dir, i)
            && !later.pending(dir, i) by {
            self.lemma_reaches_pending(dir, from, i);
            let chain = choose|chain: Seq<int>| #[trigger]
                self.is_chain(dir, chain) && chain[0] == from && chain.last() == i;
            self.lemma_chain_changed(later, dir, chain, chain.len() - 1);
        }
        let end = self.cascade(dir, from);
        assert forall|i: int| 0 <= i < later.entries.len() implies later.entries[i]
            == end.entries[i] by {
            assert(later.state(i) == self.state(i) || (self.reaches(dir, from, i) && later.state(i)
                == Self::target(dir)));
            assert(self.entries[i].name == later.entries[i].name);
            if self.reaches(dir, from, i) {
                assert(later.state(i) != self.state(i));
            }
        }
        assert(later.entries =~= end.entries);
    }

    /// A cascade from a feature that is not pending changes nothing.
    pub proof fn lemma_cascade_idle(self, dir: Direction, from: int)
        requires
            !self.has_index(from) || !self.pending(dir, from),
        ensures
            self.cascade(dir, from) == self,
            forall|i: int| !self.reaches(dir, from, i),
    {
        assert forall|i: int| !self.reaches(dir, from, i) by {
            if self.reaches(dir, from, i) {
                self.lemma_reaches_pending(dir, from, i);
            }
        }
        assert(self.cascade(dir, from).entries =~= self.entries);
    }

    /// What a cascade leaves behind: the shape of the table, every feature
    /// it reaches in the target state and no longer pending, every other
    /// feature as it was.
    pub proof fn lemma_cascade(self, dir: Direction, from: int)
        ensures
            self.same_shape(self.cascade(dir, from)),
            forall|i: int|
                self.has_index(i) ==> #[trigger] self.cascade(dir, from).state(i) == (if self.reaches(
                    dir,
                    from,
                    i,
                ) {
                    Self::target(dir)
                } else {
                    self.state(i)
                }),
            forall|i: int|
                self.has_index(i) && #[trigger] self.cascade(dir, from).pending(dir, i)
                    ==> self.pending(dir, i) && !self.reaches(dir, from, i),
    {
    }

    /// The pending features of a table are finitely many.
    pub proof fn lemma_pending_finite(self, dir: Direction)
        ensures
            self.pending_set(dir).finite(),
            self.pending_set(dir).len() <= self.len(),
    {
        lemma_int_range(0, self.len() as int);
        assert(self.pending_set(dir).subset_of(set_int_range(0, self.len() as int)));
        lemma_len_subset(self.pending_set(dir), set_int_range(0, self.len() as int));
    }

    /// A later stage of a cascade has no more pending features, and fewer
    /// once a pending feature has been changed.
    pub proof fn lemma_pending_shrinks(self, later: FeatureGraph, dir: Direction)
        requires
            self.len() == later.len(),
            forall|i: int| self.has_index(i) && #[trigger] later.pending(dir, i) ==> self.pending(dir, i),
        ensures
            later.pending_set(dir).len() <= self.pending_set(dir).len(),
            forall|x: int|
                self.has_index(x) && self.pending(dir, x) && !later.pending(dir, x)
                    ==> later.pending_set(dir).len() < self.pending_set(dir).len(),
    {
        self.lemma_pending_finite(dir);
        later.lemma_pending_finite(dir);
        assert forall|i: int| later.pending_set(dir).contains(i) implies self.pending_set(
            dir,
        ).contains(i) by {
            assert(self.has_index(i) && later.pending(dir, i));
        }
        lemma_len_subset(later.pending_set(dir), self.pending_set(dir));
        assert forall|x: int|
            self.has_index(x) && self.pending(dir, x) && !later.pending(dir, x) implies later.pending_set(
            dir,
        ).len() < self.pending_set(dir).len() by {
            let fewer = self.pending_set(dir).remove(x);
            assert(self.pending_set(dir).contains(x));
            assert(later.pending_set(dir).subset_of(fewer));
            lemma_len_subset(later.pending_set(dir), fewer);
        }
    }

    /// Having the same shape carries over.
    pub proof fn lemma_same_shape_trans(a: FeatureGraph, b: FeatureGraph, c: FeatureGraph)
        requires
            a.same_shape(b),
            b.same_shape(c),
        ensures
            a.same_shape(c),
    {
        assert forall|i: int| 0 <= i < a.entries.len() implies (#[trigger] a.entries[i]).name
            == c.entries[i].name && a.entries[i].feature.sub_features
            == c.entries[i].feature.sub_features && a.entries[i].feature.is_default
            == c.entries[i].feature.is_default by {
            assert(a.entries[i].name == b.entries[i].name);
            assert(b.entries[i].name == c.entries[i].name);
        }
    }

    /// Switching features off changes neither names nor what features
    /// imply.
    pub proof fn lemma_disable_each_shape(graph: FeatureGraph, names: Seq<Seq<char>>)
        ensures
            graph.same_shape(graph.disable_each(names)),
        decreases names.len(),
    {
        if names.len() > 0 {
            Self::lemma_disable_each_shape(graph, names.drop_last());
            let earlier = graph.disable_each(names.drop_last());
            if earlier.contains(names.last()) {
                earlier.lemma_cascade(Direction::Disable, earlier.index_of(names.last()));
            }
            Self::lemma_same_shape_trans(graph, earlier, graph.disable_each(names));
        }
    }

    /// Once one name cannot be inherited, no longer list of names can.
    pub proof fn lemma_inherit_each_stops(graph: FeatureGraph, names: Seq<Seq<char>>, k: int)
        requires
            0 <= k < names.len(),
            graph.inherit_each(names.take(k + 1)) is None,
        ensures
            graph.inherit_each(names) is None,
        decreases names.len() - k,
    {
        if k + 1 < names.len() {
            assert(names.take(k + 2).drop_last() =~= names.take(k + 1));
            Self::lemma_inherit_each_stops(graph, names, k + 1);
        } else {
            assert(names.take(k + 1) =~= names);
        }
    }

    /// Having the same shape goes both ways.
    pub proof fn lemma_same_shape_sym(a: FeatureGraph, b: FeatureGraph)
        requires
            a.same_shape(b),
        ensures
            b.same_shape(a),
    {
        assert forall|i: int| 0 <= i < b.entries.len() implies (#[trigger] b.entries[i]).name
            == a.entries[i].name && b.entries[i].feature.sub_features
            == a.entries[i].feature.sub_features && b.entries[i].feature.is_default
            == a.entries[i].feature.is_default by {
            assert(a.entries[i].name == b.entries[i].name);
        }
    }

    /// A table has its own shape.
    pub proof fn lemma_same_shape_refl(graph: FeatureGraph)
        ensures
            graph.same_shape(graph),
    {
    }

    /// Once one name cannot be switched on, no longer list of names can.
    pub proof fn lemma_enable_each_stops(graph: FeatureGraph, names: Seq<Seq<char>>, k: int)
        requires
            0 <= k < names.len(),
            graph.enable_each(names.take(k + 1)) is None,
        ensures
            graph.enable_each(names) is None,
        decreases names.len() - k,
    {
        if k + 1 < names.len() {
            assert(names.take(k + 2).drop_last() =~= names.take(k + 1));
            Self::lemma_enable_each_stops(graph, names, k + 1);
        } else {
            assert(names.take(k + 1) =~= names);
        }
    }

    /// Once one name cannot be switched off, no longer list of names can.
    pub proof fn lemma_disable_all_stops(graph: FeatureGraph, names: Seq<Seq<char>>, k: int)
        requires
            0 <= k < names.len(),
            graph.disable_all(names.take(k + 1)) is None,
        ensures
            graph.disable_all(names) is None,
        decreases names.len() - k,
    {
        if k + 1 < names.len() {
            assert(names.take(k + 2).drop_last() =~= names.take(k + 1));
            Self::lemma_disable_all_stops(graph, names, k + 1);
        } else {
            assert(names.take(k + 1) =~= names);
        }
    }
}

} // verus!
