//! The table of a dependency's features, keyed by name.

use vstd::prelude::*;
use vstd::string::*;
use crate::feature::{EnabledState, FeatureData, SubFeatureType};
use crate::error::Error;
use crate::graph::{Direction, FeatureEntry, FeatureGraph};
use crate::names::views;

verus! {

/// One feature of the table with its name.
#[derive(Debug)]
pub struct Feature {
    pub name: String,
    pub data: FeatureData,
}

/// The features of a dependency under their names. No name occurs twice;
/// features are kept in the order in which they were first inserted.
#[derive(Debug)]
pub struct FeatureMap {
    entries: Vec<Feature>,
}

/// The table that a sequence of features stands for.
pub open spec fn graph_of(features: Seq<Feature>) -> FeatureGraph {
    FeatureGraph {
        entries: Seq::new(
            features.len(),
            |i: int| FeatureEntry { name: features[i].name@, feature: features[i].data@ },
        ),
    }
}

impl View for FeatureMap {
    type V = FeatureGraph;

    closed spec fn view(&self) -> FeatureGraph {
        graph_of(self.entries@)
    }
}

impl FeatureMap {
    /// No name occurs twice in the table.
    #[verifier::type_invariant]
    pub open spec fn names_are_unique(&self) -> bool {
        self@.wf()
    }

    pub fn new() -> (map: FeatureMap)
        ensures
            map@.len() == 0,
            map@.wf(),
    {
        FeatureMap { entries: Vec::new() }
    }

    pub fn len(&self) -> (len: usize)
        ensures
            len == self@.len(),
            self@.wf(),
    {
        proof {
            use_type_invariant(self);
        }
        self.entries.len()
    }

    pub fn is_empty(&self) -> (empty: bool)
        ensures
            empty == (self@.len() == 0),
    {
        self.entries.len() == 0
    }

    /// The place of `name` in the table.
    pub fn position(&self, name: &String) -> (found: Option<usize>)
        ensures
            self@.wf(),
            match found {
                Some(i) => self@.has_index(i as int) && self@.name(i as int) == name@ && i
                    == self@.index_of(name@),
                None => !self@.contains(name@),
            },
    {
        proof {
            use_type_invariant(self);
        }
        let mut i: usize = 0;
        while i < self.entries.len()
            invariant
                self@.wf(),
                i <= self.entries.len(),
                forall|k: int| 0 <= k < i ==> (#[trigger] self@.entries[k]).name != name@,
            decreases self.entries.len() - i,
        {
            if self.entries[i].name == *name {
                assert(self@.entries[i as int].name == name@);
                return Some(i);
            }
            i += 1;
        }
        None
    }

    pub fn name_at(&self, i: usize) -> (name: &String)
        requires
            i < self@.len(),
        ensures
            name@ == self@.name(i as int),
    {
        &self.entries[i].name
    }

    pub fn data_at(&self, i: usize) -> (data: &FeatureData)
        requires
            i < self@.len(),
        ensures
            data@ == self@.feature(i as int),
    {
        &self.entries[i].data
    }

    pub fn contains_key(&self, name: &str) -> (found: bool)
        ensures
            found == self@.contains(name@),
    {
        self.position(&name.to_owned()).is_some()
    }

    /// The record under `name`.
    pub fn get(&self, name: &str) -> (found: Option<&FeatureData>)
        ensures
            match found {
                Some(data) => self@.get(name@) == Some(data@),
                None => self@.get(name@) is None,
            },
    {
        match self.position(&name.to_owned()) {
            Some(i) => Some(&self.entries[i].data),
            None => None,
        }
    }

    /// The names in table order.
    pub fn names(&self) -> (names: Vec<String>)
        ensures
            names@.len() == self@.len(),
            forall|i: int| 0 <= i < names@.len() ==> (#[trigger] names@[i])@ == self@.name(i),
    {
        let mut names: Vec<String> = Vec::new();
        let mut i: usize = 0;
        while i < self.entries.len()
            invariant
                i <= self.entries.len(),
                names@.len() == i,
                forall|k: int| 0 <= k < i ==> (#[trigger] names@[k])@ == self@.name(k),
            decreases self.entries.len() - i,
        {
            names.push(self.entries[i].name.clone());
            i += 1;
        }
        names
    }

    /// Puts `data` under `name`. Where the table holds the name already, the
    /// record is replaced in its place and the earlier one handed back;
    /// otherwise the feature is added at the end.
    pub fn insert(&mut self, name: String, data: FeatureData) -> (earlier: Option<FeatureData>)
        ensures
            final(self)@.wf(),
            match earlier {
                Some(replaced) => {
                    &&& old(self)@.contains(name@)
                    &&& replaced@ == old(self)@.feature(old(self)@.index_of(name@))
                    &&& final(self)@ == old(self)@.with_feature(old(self)@.index_of(name@), data@)
                },
                None => {
                    &&& !old(self)@.contains(name@)
                    &&& final(self)@ == old(self)@.push(name@, data@)
                },
            },
    {
        proof {
            use_type_invariant(&*self);
        }
        let found = self.position(&name);
        let mut entries: Vec<Feature> = Vec::new();
        std::mem::swap(&mut self.entries, &mut entries);
        let earlier = match found {
            Some(i) => {
                let mut slot = data;
                std::mem::swap(&mut entries[i].data, &mut slot);
                assert(graph_of(entries@).entries =~= old(self)@.with_feature(i as int, data@).entries);
                Some(slot)
            },
            None => {
                entries.push(Feature { name, data });
                assert(graph_of(entries@).entries =~= old(self)@.push(name@, data@).entries);
                assert forall|i: int, j: int|
                    0 <= i < entries@.len() && 0 <= j < entries@.len() && i != j implies graph_of(
                    entries@,
                ).entries[i].name != graph_of(entries@).entries[j].name by {
                    if i < old(self)@.len() {
                        assert(old(self)@.entries[i].name == graph_of(entries@).entries[i].name);
                    }
                    if j < old(self)@.len() {
                        assert(old(self)@.entries[j].name == graph_of(entries@).entries[j].name);
                    }
                }
                None
            },
        };
        self.entries = entries;
        earlier
    }

    /// The states of the features, in table order.
    pub fn states(&self) -> (states: Vec<EnabledState>)
        ensures
            states@ == self@.states(),
    {
        let mut states: Vec<EnabledState> = Vec::new();
        let mut i: usize = 0;
        while i < self.entries.len()
            invariant
                i <= self.entries.len(),
                states@.len() == i,
                forall|k: int| 0 <= k < i ==> states@[k] == self@.state(k),
            decreases self.entries.len() - i,
        {
            states.push(self.entries[i].data.enabled_state);
            i += 1;
        }
        assert(states@ =~= self@.states());
        states
    }

    /// Puts the features into the given states, one for each feature in
    /// table order. Nothing changes where there are more or fewer states
    /// than features; the result says whether the states were taken.
    pub fn restore(&mut self, states: &Vec<EnabledState>) -> (restored: bool)
        ensures
            restored == (states@.len() == old(self)@.len()),
            final(self)@ == if restored {
                old(self)@.with_states(states@)
            } else {
                old(self)@
            },
    {
        proof {
            use_type_invariant(&*self);
        }
        if states.len() != self.entries.len() {
            return false;
        }
        let mut entries: Vec<Feature> = Vec::new();
        std::mem::swap(&mut self.entries, &mut entries);
        let ghost before = entries@;
        let mut i: usize = 0;
        while i < entries.len()
            invariant
                i <= entries.len(),
                entries@.len() == before.len(),
                states@.len() == before.len(),
                forall|k: int|
                    0 <= k < i ==> graph_of(entries@).entries[k] == graph_of(before).with_states(
                        states@,
                    ).entries[k],
                forall|k: int| i <= k < entries@.len() ==> entries@[k] == before[k],
                forall|k: int| 0 <= k < entries@.len() ==> (#[trigger] entries@[k]).name@ == before[k].name@,
            decreases entries.len() - i,
        {
            let ghost prior = entries@;
            entries[i].data.enabled_state = states[i];
            proof {
                assert forall|k: int| 0 <= k < i + 1 implies graph_of(entries@).entries[k] == graph_of(
                    before,
                ).with_states(states@).entries[k] by {
                    if k < i {
                        assert(entries@[k] == prior[k]);
                        assert(graph_of(prior).entries[k] == graph_of(before).with_states(
                            states@,
                        ).entries[k]);
                    } else {
                        assert(prior[k] == before[k]);
                        assert(entries@[k].data@ == before[k].data@.with_state(states@[k]));
                    }
                }
                assert forall|k: int| i + 1 <= k < entries@.len() implies entries@[k] == before[k] by {
                    assert(entries@[k] == prior[k]);
                }
            }
            i += 1;
        }
        assert(graph_of(entries@).entries =~= graph_of(before).with_states(states@).entries);
        assert(graph_of(entries@).wf()) by {
            assert forall|a: int, b: int|
                0 <= a < entries@.len() && 0 <= b < entries@.len() && a != b implies graph_of(
                entries@,
            ).entries[a].name != graph_of(entries@).entries[b].name by {
                assert(graph_of(before).entries[a].name == entries@[a].name@);
                assert(graph_of(before).entries[b].name == entries@[b].name@);
            }
        }
        self.entries = entries;
        true
    }

    /// Puts the feature at `i` into `state`.
    pub fn set_state(&mut self, i: usize, state: EnabledState)
        requires
            i < old(self)@.len(),
        ensures
            final(self)@ == old(self)@.with_state(i as int, state),
    {
        proof {
            use_type_invariant(&*self);
        }
        let mut entries: Vec<Feature> = Vec::new();
        std::mem::swap(&mut self.entries, &mut entries);
        entries[i].data.enabled_state = state;
        assert(graph_of(entries@).entries =~= old(self)@.with_state(i as int, state).entries);
        self.entries = entries;
    }

    /// The names of the features whose flag in `picked` is set, in table
    /// order; `pick` is the choice that the flags stand for.
    pub(crate) fn names_where(
        &self,
        picked: &Vec<bool>,
        Ghost(pick): Ghost<spec_fn(FeatureEntry) -> bool>,
    ) -> (names: Vec<String>)
        requires
            picked@.len() == self@.len(),
            forall|i: int| 0 <= i < self@.len() ==> picked@[i] == pick(#[trigger] self@.entries[i]),
        ensures
            views(names@) == self@.entries.filter(pick).map_values(
                |entry: FeatureEntry| entry.name,
            ),
    {
        let ghost name_of = |entry: FeatureEntry| entry.name;
        let mut names: Vec<String> = Vec::new();
        let count = self.entries.len();
        let mut i: usize = 0;
        proof {
            assert(self@.entries.take(0) =~= Seq::<FeatureEntry>::empty());
            Seq::<FeatureEntry>::empty().lemma_filter_len(pick);
            assert(views(names@) =~= self@.entries.take(0).filter(pick).map_values(name_of));
        }
        while i < count
            invariant
                count == self@.len(),
                picked@.len() == count,
                i <= count,
                name_of == |entry: FeatureEntry| entry.name,
                forall|k: int| 0 <= k < self@.len() ==> picked@[k] == pick(#[trigger] self@.entries[k]),
                views(names@) == self@.entries.take(i as int).filter(pick).map_values(name_of),
            decreases count - i,
        {
            let ghost seen = self@.entries.take(i as int);
            let ghost before = names@;
            proof {
                assert(self@.entries.take(i + 1) =~= seen.push(self@.entries[i as int]));
                seen.lemma_filter_push(self@.entries[i as int], pick);
            }
            if picked[i] {
                names.push(self.entries[i].name.clone());
                proof {
                    assert(views(names@) =~= views(before).push(self@.name(i as int)));
                    assert(seen.filter(pick).push(self@.entries[i as int]).map_values(name_of)
                        =~= seen.filter(pick).map_values(name_of).push(self@.name(i as int)));
                }
            }
            i += 1;
        }
        proof {
            assert(self@.entries.take(count as int) =~= self@.entries);
        }
        names
    }

    /// Whether the feature at `i` lists `name` among its implied names,
    /// whatever the kind of the entry.
    pub fn lists_at(&self, i: usize, name: &String) -> (listed: bool)
        requires
            i < self@.len(),
        ensures
            listed == self@.feature(i as int).lists(name@),
    {
        let subs = &self.entries[i].data.sub_features;
        let mut k: usize = 0;
        while k < subs.len()
            invariant
                i < self@.len(),
                subs@ == self.entries@[i as int].data.sub_features@,
                k <= subs.len(),
                forall|c: int| 0 <= c < k ==> (#[trigger] self@.feature(i as int).sub_features[c]).name != name@,
            decreases subs.len() - k,
        {
            if subs[k].name == *name {
                assert(self@.feature(i as int).sub_features[k as int].name == name@);
                return true;
            }
            k += 1;
        }
        false
    }

    /// Switches the feature at `index` on, and with it every feature of the
    /// table that it implies, directly or through others. A feature that is
    /// on already is left as it is, and so is everything behind it.
    ///
    /// Fails when the cascade comes upon a feature that lists, as a feature
    /// of the same dependency, a name that the table does not hold. The
    /// features changed up to then stay changed.
    pub fn enable_at(&mut self, index: usize) -> (result: Result<(), Error>)
        requires
            index < old(self)@.len(),
        ensures
            old(self)@.same_shape(final(self)@),
            result is Ok <==> !old(self)@.enable_fails(index as int),
            result is Ok ==> final(self)@ == old(self)@.cascade(Direction::Enable, index as int),
            final(self)@.enabled(index as int),
            forall|i: int|
                old(self)@.has_index(i) ==> #[trigger] final(self)@.state(i) == old(self)@.state(i)
                    || (old(self)@.reaches(Direction::Enable, index as int, i) && final(self)@.state(
                    i,
                ) == EnabledState::Normal(true)),
            match result {
                Ok(_) => true,
                Err(Error::FeatureNotFound(name)) => !old(self)@.contains(name@),
                Err(_) => false,
            },
        decreases old(self)@.pending_set(Direction::Enable).len(),
    {
        let ghost start = self@;
        let ghost dir = Direction::Enable;
        proof {
            use_type_invariant(&*self);
        }
        if self.entries[index].data.is_enabled() {
            proof {
                start.lemma_cascade_idle(dir, index as int);
            }
            return Ok(());
        }
        self.set_state(index, EnabledState::Normal(true));
        proof {
            start.lemma_with_state(index as int, EnabledState::Normal(true));
            start.lemma_reaches_start(dir, index as int);
            start.lemma_pending_shrinks(self@, dir);
        }
        let count = self.entries[index].data.sub_features.len();
        let mut k: usize = 0;
        while k < count
            invariant
                start == old(self)@,
                dir == Direction::Enable,
                start.wf(),
                self@.wf(),
                index < start.len(),
                start.stage_of_cascade(dir, index as int, self@),
                count == start.feature(index as int).sub_features.len(),
                k <= count,
                forall|i: int|
                    start.has_index(i) && i != index && start.pending(dir, i) && !self@.pending(dir, i)
                        ==> !#[trigger] start.missing_sub_feature(i),
                forall|c: int|
                    0 <= c < k && (#[trigger] start.feature(index as int).sub_features[c]).kind
                        == SubFeatureType::Normal ==> start.contains(
                        start.feature(index as int).sub_features[c].name,
                    ) && self@.enabled(
                        start.index_of(start.feature(index as int).sub_features[c].name),
                    ),
                self@.pending_set(dir).len() < start.pending_set(dir).len(),
            decreases count - k,
        {
            let ghost before = self@;
            assert(before.entries[index as int].name == start.entries[index as int].name);
            let sub = &self.entries[index].data.sub_features[k];
            assert(sub@ == start.feature(index as int).sub_features[k as int]);
            match sub.kind {
                SubFeatureType::Normal => {
                    let name = sub.name.clone();
                    proof {
                        start.lemma_same_shape_contains(before, name@);
                    }
                    match self.position(&name) {
                        None => {
                            proof {
                                assert(start.missing_sub_feature(index as int));
                                start.lemma_reaches_start(dir, index as int);
                            }
                            return Err(Error::FeatureNotFound(name));
                        },
                        Some(next) => {
                            let result = self.enable_at(next);
                            proof {
                                let after = self@;
                                assert(before.entries[next as int].name == start.entries[next as int].name);
                                start.lemma_index_of(next as int);
                                assert(start.passes(dir, index as int, next as int));
                                before.lemma_same_shape_contains(after, name@);
                                assert forall|i: int| before.has_index(i) && #[trigger] after.pending(dir, i) implies before.pending(dir, i) by {
                                    assert(after.state(i) == before.state(i) || after.state(i) == EnabledState::Normal(true));
                                }
                                assert forall|i: int| start.has_index(i) && #[trigger] before.pending(dir, i) implies start.pending(dir, i) by {
                                    assert(before.state(i) == start.state(i) || before.state(i) == EnabledState::Normal(true));
                                }
                                before.lemma_pending_shrinks(after, dir);
                                assert(!after.pending(dir, index as int));
                                assert forall|i: int| start.has_index(i) implies #[trigger] after.state(i) == start.state(i)
                                    || (start.reaches(dir, index as int, i) && after.state(i) == EnabledState::Normal(true)) by {
                                    assert(after.state(i) == before.state(i) || (before.reaches(dir, next as int, i) && after.state(i) == EnabledState::Normal(true)));
                                    assert(before.state(i) == start.state(i) || (start.reaches(dir, index as int, i) && before.state(i) == EnabledState::Normal(true)));
                                    if before.reaches(dir, next as int, i) {
                                        start.lemma_reaches_through(before, dir, index as int, next as int, i);
                                    }
                                }
                                assert forall|i: int| start.has_index(i) implies (#[trigger] start.entries[i]).name == after.entries[i].name
                                    && start.entries[i].feature.sub_features == after.entries[i].feature.sub_features
                                    && start.entries[i].feature.is_default == after.entries[i].feature.is_default by {
                                    assert(before.entries[i].name == after.entries[i].name);
                                }
                                if result is Err {
                                    let bad = choose|i: int| #[trigger] before.reaches(dir, next as int, i) && before.missing_sub_feature(i);
                                    before.lemma_reaches_pending(dir, next as int, bad);
                                    start.lemma_reaches_through(before, dir, index as int, next as int, bad);
                                    start.lemma_same_shape_passes(before, dir, bad, bad);
                                    assert(start.reaches(dir, index as int, bad) && start.missing_sub_feature(bad));
                                } else {
                                    before.lemma_cascade(dir, next as int);
                                    assert forall|i: int, j: int|
                                        start.has_index(i) && start.has_index(j) && i != index && start.pending(dir, i)
                                            && !after.pending(dir, i) && #[trigger] start.passes(dir, i, j) implies !after.pending(dir, j) by {
                                        start.lemma_same_shape_passes(before, dir, i, j);
                                        if before.pending(dir, i) {
                                            assert(after.state(i) != before.state(i));
                                            assert(before.reaches(dir, next as int, i));
                                            if before.pending(dir, j) {
                                                before.lemma_reaches_next(dir, next as int, i, j);
                                            }
                                        }
                                    }
                                    assert forall|i: int|
                                        start.has_index(i) && i != index && start.pending(dir, i) && !after.pending(dir, i)
                                            implies !#[trigger] start.missing_sub_feature(i) by {
                                        start.lemma_same_shape_passes(before, dir, i, i);
                                        if before.pending(dir, i) {
                                            assert(after.state(i) != before.state(i));
                                            assert(before.reaches(dir, next as int, i));
                                        }
                                    }
                                    assert(after.enabled(start.index_of(name@)));
                                }
                            }
                            if result.is_err() {
                                return result;
                            }
                        },
                    }
                },
                _ => {},
            }
            k += 1;
        }
        proof {
            let end = self@;
            assert forall|j: int| start.has_index(j) && #[trigger] start.passes(dir, index as int, j) implies !end.pending(dir, j) by {
                let c = choose|c: int| 0 <= c < start.feature(index as int).sub_features.len()
                    && (#[trigger] start.feature(index as int).sub_features[c]).name == start.entries[j].name
                    && start.feature(index as int).sub_features[c].kind == SubFeatureType::Normal;
                start.lemma_index_of(j);
            }
            start.lemma_stage_complete(dir, index as int, end);
            assert forall|i: int| #[trigger] start.reaches(dir, index as int, i) implies !start.missing_sub_feature(i) by {
                if i == index {
                    if start.missing_sub_feature(i) {
                        let c = choose|c: int| 0 <= c < start.entries[i].feature.sub_features.len() && (
                            #[trigger] start.entries[i].feature.sub_features[c]).kind == SubFeatureType::Normal
                            && !start.contains(start.entries[i].feature.sub_features[c].name);
                        assert(start.contains(start.feature(index as int).sub_features[c].name));
                    }
                }
            }
        }
        Ok(())
    }

    /// Switches the feature at `index` off, and with it every feature of the
    /// table that requires it, directly or through others: every feature
    /// that lists its name, whatever the kind of the entry. A feature that
    /// is off already is left as it is, and so is everything behind it. A
    /// feature that was inherited from the workspace is switched off like
    /// any other.
    pub fn disable_at(&mut self, index: usize)
        requires
            index < old(self)@.len(),
        ensures
            final(self)@ == old(self)@.cascade(Direction::Disable, index as int),
        decreases old(self)@.pending_set(Direction::Disable).len(),
    {
        let ghost start = self@;
        let ghost dir = Direction::Disable;
        proof {
            use_type_invariant(&*self);
        }
        if !self.entries[index].data.is_enabled() {
            proof {
                start.lemma_cascade_idle(dir, index as int);
            }
            return ;
        }
        self.set_state(index, EnabledState::Normal(false));
        proof {
            start.lemma_with_state(index as int, EnabledState::Normal(false));
            start.lemma_reaches_start(dir, index as int);
            start.lemma_pending_shrinks(self@, dir);
        }
        let name = self.entries[index].name.clone();
        let count = self.entries.len();
        let mut next: usize = 0;
        while next < count
            invariant
                start == old(self)@,
                dir == Direction::Disable,
                start.wf(),
                self@.wf(),
                index < start.len(),
                name@ == start.name(index as int),
                start.stage_of_cascade(dir, index as int, self@),
                count == start.len(),
                next <= count,
                forall|j: int|
                    0 <= j < next && #[trigger] start.passes(dir, index as int, j) ==> !self@.pending(
                        dir,
                        j,
                    ),
                self@.pending_set(dir).len() < start.pending_set(dir).len(),
            decreases count - next,
        {
            let ghost before = self@;
            assert(before.entries[next as int].name == start.entries[next as int].name);
            if self.lists_at(next, &name) {
                self.disable_at(next);
                proof {
                    let after = self@;
                    before.lemma_cascade(dir, next as int);
                    assert(start.passes(dir, index as int, next as int));
                    assert forall|i: int| before.has_index(i) && #[trigger] after.pending(dir, i) implies before.pending(dir, i) by {}
                    assert forall|i: int| start.has_index(i) && #[trigger] before.pending(dir, i) implies start.pending(dir, i) by {
                        assert(before.state(i) == start.state(i) || before.state(i) == EnabledState::Normal(false));
                    }
                    before.lemma_pending_shrinks(after, dir);
                    assert(!after.pending(dir, index as int));
                    assert forall|i: int| start.has_index(i) implies #[trigger] after.state(i) == start.state(i)
                        || (start.reaches(dir, index as int, i) && after.state(i) == EnabledState::Normal(false)) by {
                        assert(before.state(i) == start.state(i) || (start.reaches(dir, index as int, i) && before.state(i) == EnabledState::Normal(false)));
                        if before.reaches(dir, next as int, i) {
                            start.lemma_reaches_through(before, dir, index as int, next as int, i);
                        }
                    }
                    assert forall|i: int| start.has_index(i) implies (#[trigger] start.entries[i]).name == after.entries[i].name
                        && start.entries[i].feature.sub_features == after.entries[i].feature.sub_features
                        && start.entries[i].feature.is_default == after.entries[i].feature.is_default by {
                        assert(before.entries[i].name == after.entries[i].name);
                    }
                    assert forall|i: int, j: int|
                        start.has_index(i) && start.has_index(j) && i != index && start.pending(dir, i)
                            && !after.pending(dir, i) && #[trigger] start.passes(dir, i, j) implies !after.pending(dir, j) by {
                        start.lemma_same_shape_passes(before, dir, i, j);
                        if before.pending(dir, i) {
                            assert(before.reaches(dir, next as int, i));
                            if before.pending(dir, j) {
                                before.lemma_reaches_next(dir, next as int, i, j);
                            }
                        }
                    }
                    if before.pending(dir, next as int) {
                        before.lemma_reaches_start(dir, next as int);
                    }
                    assert(!after.pending(dir, next as int));
                }
            }
            next += 1;
        }
        proof {
            start.lemma_stage_complete(dir, index as int, self@);
        }
    }
}

} // verus!
