//! What holds of taking over the features of the workspace.

use vstd::prelude::*;
use crate::feature::EnabledState;
use crate::graph::{Direction, FeatureEntry, FeatureGraph};

verus! {

impl FeatureGraph {
    /// Along a chain that an enabling cascade walks, every name belongs to
    /// a set of names that holds the name of the first feature and, with
    /// the name of a feature, the names of the features it implies.
    proof fn lemma_chain_stays_within(
        self,
        base: FeatureGraph,
        all: Seq<Seq<char>>,
        chain: Seq<int>,
        k: int,
    )
        requires
            base.same_shape(self),
            self.is_chain(Direction::Enable, chain),
            all.contains(self.name(chain[0])),
            forall|i: int, j: int| #[trigger]
                base.implies(i, j) && all.contains(base.name(i)) ==> all.contains(base.name(j)),
            0 <= k < chain.len(),
        ensures
            all.contains(self.name(chain[k])),
        decreases k,
    {
        if k > 0 {
            self.lemma_chain_stays_within(base, all, chain, k - 1);
            let i = chain[k - 1];
            let j = chain[k];
            assert(self.has_index(i) && self.has_index(j));
            assert(self.passes(Direction::Enable, chain[k - 1], chain[k - 1 + 1]));
            base.lemma_same_shape_passes(self, Direction::Enable, i, j);
            assert(base.implies(i, j));
            assert(base.entries[i].name == self.entries[i].name);
            assert(base.entries[j].name == self.entries[j].name);
        }
    }

    /// Inheriting features one after the other, from a table in which the
    /// enabled features are among `all`, where `all` holds the names to
    /// inherit and, with the name of a feature, the names of the features
    /// it implies: the enabled features stay among `all`, and each
    /// inherited name is marked as inherited.
    pub proof fn lemma_inherit_each(self, names: Seq<Seq<char>>, all: Seq<Seq<char>>)
        requires
            self.wf(),
            self.inherit_each(names) is Some,
            forall|i: int| self.has_index(i) && #[trigger] self.enabled(i) ==> all.contains(self.name(i)),
            forall|i: int, j: int| #[trigger]
                self.implies(i, j) && all.contains(self.name(i)) ==> all.contains(self.name(j)),
            forall|k: int| 0 <= k < names.len() ==> all.contains(#[trigger] names[k]),
        ensures
            self.same_shape(self.inherit_each(names).unwrap()),
            self.inherit_each(names).unwrap().wf(),
            forall|i: int|
                self.has_index(i) && #[trigger] self.inherit_each(names).unwrap().enabled(i)
                    ==> all.contains(self.name(i)),
            forall|i: int|
                self.has_index(i) && self.state(i) == EnabledState::Workspace
                    ==> #[trigger] self.inherit_each(names).unwrap().state(i) == EnabledState::Workspace,
            forall|k: int|
                0 <= k < names.len() ==> self.contains(#[trigger] names[k]) && self.inherit_each(
                    names,
                ).unwrap().state(self.index_of(names[k])) == EnabledState::Workspace,
        decreases names.len(),
    {
        let dir = Direction::Enable;
        if names.len() == 0 {
            assert(self.inherit_each(names) == Some(self));
        } else {
            let earlier_names = names.drop_last();
            let name = names.last();
            self.lemma_inherit_each(earlier_names, all);
            let earlier = self.inherit_each(earlier_names).unwrap();
            let at = earlier.index_of(name);
            let switched = earlier.cascade(dir, at);
            let after = switched.with_state(at, EnabledState::Workspace);
            assert(self.inherit_each(names) == Some(after));
            self.lemma_same_shape_contains(earlier, name);
            assert(earlier.entries[at].name == name);
            assert(self.entries[at].name == earlier.entries[at].name);
            self.lemma_index_of(at);
            earlier.lemma_cascade(dir, at);
            switched.lemma_with_state(at, EnabledState::Workspace);
            FeatureGraph::lemma_same_shape_trans(earlier, switched, after);
            FeatureGraph::lemma_same_shape_trans(self, earlier, after);
            self.lemma_same_shape_contains(after, name);
            assert(all.contains(names[names.len() - 1]));
            assert forall|i: int| self.has_index(i) && #[trigger] after.enabled(i) implies all.contains(
                self.name(i),
            ) by {
                assert(self.entries[i].name == earlier.entries[i].name);
                if i != at {
                    assert(after.entries[i] == switched.entries[i]);
                    earlier.lemma_cascade_enabled(dir, at, i);
                    if earlier.reaches(dir, at, i) {
                        let chain = choose|chain: Seq<int>| #[trigger]
                            earlier.is_chain(dir, chain) && chain[0] == at && chain.last() == i;
                        earlier.lemma_chain_stays_within(self, all, chain, chain.len() - 1);
                    } else {
                        assert(earlier.enabled(i));
                    }
                }
            }
            assert forall|i: int|
                self.has_index(i) && self.state(i) == EnabledState::Workspace implies #[trigger] after.state(
                i,
            ) == EnabledState::Workspace by {
                assert(earlier.state(i) == EnabledState::Workspace);
                if i != at {
                    assert(after.entries[i] == switched.entries[i]);
                    if earlier.reaches(dir, at, i) {
                        earlier.lemma_reaches_pending(dir, at, i);
                    }
                }
            }
            assert forall|k: int| 0 <= k < names.len() implies self.contains(#[trigger] names[k])
                && after.state(self.index_of(names[k])) == EnabledState::Workspace by {
                if k < names.len() - 1 {
                    assert(earlier_names[k] == names[k]);
                    let i = self.index_of(names[k]);
                    assert(earlier.state(i) == EnabledState::Workspace);
                    if i != at {
                        assert(after.entries[i] == switched.entries[i]);
                        if earlier.reaches(dir, at, i) {
                            earlier.lemma_reaches_pending(dir, at, i);
                        }
                    }
                }
            }
        }
    }

    /// After a dependency has taken over the features of the workspace,
    /// its enabled features are those that the workspace has enabled, and
    /// each of them is marked as inherited.
    ///
    /// This holds of a dependency whose features that stay on, once what it
    /// had inherited is switched off, are among those of the workspace, and
    /// in which an enabled feature of the workspace implies only enabled
    /// features of the workspace.
    pub proof fn lemma_inherit_mirrors(self, names: Seq<Seq<char>>, after: FeatureGraph)
        requires
            self.wf(),
            self.inherit(names) == Some(after),
            forall|i: int|
                self.has_index(i) && #[trigger] self.disable_each(self.inherited_list()).enabled(i)
                    ==> names.contains(self.name(i)),
            forall|i: int, j: int| #[trigger]
                self.implies(i, j) && names.contains(self.name(i)) ==> names.contains(self.name(j)),
        ensures
            self.same_shape(after),
            forall|i: int|
                self.has_index(i) ==> (#[trigger] after.enabled(i) <==> names.contains(self.name(i))),
            forall|i: int|
                self.has_index(i) && #[trigger] after.enabled(i) ==> after.state(i)
                    == EnabledState::Workspace,
            forall|name: Seq<char>| after.enabled_names().contains(name) <==> names.contains(name),
    {
        let cleared = self.disable_each(self.inherited_list());
        FeatureGraph::lemma_disable_each_shape(self, self.inherited_list());
        assert(cleared.wf()) by {
            self.lemma_same_shape_contains(cleared, seq![]);
        }
        assert forall|i: int| cleared.has_index(i) && #[trigger] cleared.enabled(i) implies names.contains(
            cleared.name(i),
        ) by {
            assert(self.entries[i].name == cleared.entries[i].name);
        }
        assert forall|i: int, j: int| #[trigger]
            cleared.implies(i, j) && names.contains(cleared.name(i)) implies names.contains(
            cleared.name(j),
        ) by {
            self.lemma_same_shape_passes(cleared, Direction::Enable, i, j);
            assert(self.implies(i, j));
            assert(self.entries[i].name == cleared.entries[i].name);
            assert(self.entries[j].name == cleared.entries[j].name);
        }
        cleared.lemma_inherit_each(names, names);
        FeatureGraph::lemma_same_shape_trans(self, cleared, after);
        assert forall|i: int| self.has_index(i) implies (#[trigger] after.enabled(i)
            <==> names.contains(self.name(i))) && (after.enabled(i) ==> after.state(i)
            == EnabledState::Workspace) by {
            assert(self.entries[i].name == cleared.entries[i].name);
            if names.contains(self.name(i)) {
                let k = choose|k: int| 0 <= k < names.len() && names[k] == self.name(i);
                assert(cleared.contains(names[k]));
                cleared.lemma_index_of(i);
            }
        }
        assert forall|name: Seq<char>| after.enabled_names().contains(name) <==> names.contains(
            name,
        ) by {
            if after.enabled_names().contains(name) {
                let i = choose|i: int|
                    0 <= i < after.entries.len() && (#[trigger] after.entries[i]).name == name
                        && after.entries[i].feature.is_enabled();
                assert(after.enabled(i));
                assert(self.entries[i].name == after.entries[i].name);
            }
            if names.contains(name) {
                let k = choose|k: int| 0 <= k < names.len() && names[k] == name;
                assert(cleared.contains(names[k]));
                let i = cleared.index_of(name);
                assert(self.entries[i].name == cleared.entries[i].name);
                assert(self.entries[i].name == after.entries[i].name);
                assert(after.enabled(i));
                assert(after.entries[i].name == name && after.entries[i].feature.is_enabled());
            }
        }
    }

    /// The list of the enabled features holds the names of the enabled
    /// features, and no other name.
    pub proof fn lemma_enabled_list(self)
        ensures
            forall|name: Seq<char>|
                self.enabled_list().contains(name) <==> self.enabled_names().contains(name),
    {
        let pick = |entry: FeatureEntry| entry.feature.is_enabled();
        let picked = self.entries.filter(pick);
        let names = picked.map_values(|entry: FeatureEntry| entry.name);
        crate::closure::lemma_filter_holds(self.entries, pick);
        assert forall|name: Seq<char>| names.contains(name) <==> self.enabled_names().contains(
            name,
        ) by {
            if names.contains(name) {
                let k = choose|k: int| 0 <= k < names.len() && names[k] == name;
                assert(picked.contains(picked[k]));
                assert(self.entries.contains(picked[k]));
                let i = choose|i: int| 0 <= i < self.entries.len() && self.entries[i] == picked[k];
                assert(self.entries[i].name == name && self.entries[i].feature.is_enabled());
            }
            if self.enabled_names().contains(name) {
                let i = choose|i: int|
                    0 <= i < self.entries.len() && (#[trigger] self.entries[i]).name == name
                        && self.entries[i].feature.is_enabled();
                assert(self.entries.contains(self.entries[i]));
                assert(picked.contains(self.entries[i]));
                let k = choose|k: int| 0 <= k < picked.len() && picked[k] == self.entries[i];
                assert(names[k] == name);
            }
        }
    }

    /// After the features of the workspace have been taken over, a
    /// dependency of a member has the enabled features that the workspace's
    /// declaration of it has, and each of them is marked as inherited.
    ///
    /// This holds of a dependency whose features that stay on, once what it
    /// had inherited is switched off, are enabled in the workspace too, and
    /// in which a feature that the workspace has enabled implies only
    /// features that the workspace has enabled.
    pub proof fn lemma_member_mirrors_workspace(self, workspace: FeatureGraph, after: FeatureGraph)
        requires
            self.wf(),
            self.inherit(workspace.enabled_list()) == Some(after),
            forall|i: int|
                self.has_index(i) && #[trigger] self.disable_each(self.inherited_list()).enabled(i)
                    ==> workspace.enabled_names().contains(self.name(i)),
            forall|i: int, j: int| #[trigger]
                self.implies(i, j) && workspace.enabled_names().contains(self.name(i))
                    ==> workspace.enabled_names().contains(self.name(j)),
        ensures
            after.enabled_names() == workspace.enabled_names(),
            forall|i: int|
                self.has_index(i) && #[trigger] after.enabled(i) ==> after.state(i)
                    == EnabledState::Workspace,
    {
        workspace.lemma_enabled_list();
        self.lemma_inherit_mirrors(workspace.enabled_list(), after);
        assert(after.enabled_names() =~= workspace.enabled_names());
    }

    /// Switching features off, one after the other, keeps a table in which
    /// every enabled feature has the features it implies enabled.
    pub proof fn lemma_disable_each_keeps_closed(self, names: Seq<Seq<char>>)
        requires
            self.closed(),
        ensures
            self.disable_each(names).closed(),
        decreases names.len(),
    {
        if names.len() > 0 {
            self.lemma_disable_each_keeps_closed(names.drop_last());
            let earlier = self.disable_each(names.drop_last());
            if earlier.contains(names.last()) {
                let at = earlier.index_of(names.last());
                earlier.lemma_disable_keeps_closed(at);
            }
        }
    }

    /// Taking over the features of the workspace keeps a table in which
    /// every enabled feature has the features it implies enabled.
    pub proof fn lemma_inherit_keeps_closed(self, names: Seq<Seq<char>>)
        requires
            self.closed(),
            self.inherit(names) is Some,
        ensures
            self.inherit(names).unwrap().closed(),
    {
        self.lemma_disable_each_keeps_closed(self.inherited_list());
        self.disable_each(self.inherited_list()).lemma_inherit_each_keeps_closed(names);
    }

    /// Inheriting features, one after the other, keeps a table in which
    /// every enabled feature has the features it implies enabled.
    pub proof fn lemma_inherit_each_keeps_closed(self, names: Seq<Seq<char>>)
        requires
            self.closed(),
            self.inherit_each(names) is Some,
        ensures
            self.inherit_each(names).unwrap().closed(),
        decreases names.len(),
    {
        if names.len() > 0 {
            self.lemma_inherit_each_keeps_closed(names.drop_last());
            let earlier = self.inherit_each(names.drop_last()).unwrap();
            let at = earlier.index_of(names.last());
            let switched = earlier.cascade(Direction::Enable, at);
            let after = switched.with_state(at, EnabledState::Workspace);
            assert(self.inherit_each(names) == Some(after));
            assert(earlier.entries[at].name == names.last());
            earlier.lemma_enable_keeps_closed(at);
            switched.lemma_with_state(at, EnabledState::Workspace);
            if !earlier.enabled(at) {
                earlier.lemma_reaches_start(Direction::Enable, at);
            }
            earlier.lemma_cascade_enabled(Direction::Enable, at, at);
            assert forall|i: int, j: int| #[trigger]
                after.implies(i, j) && after.enabled(i) implies after.enabled(j) by {
                switched.lemma_same_shape_passes(after, Direction::Enable, i, j);
                assert(switched.implies(i, j));
                if i != at {
                    assert(after.entries[i] == switched.entries[i]);
                }
                if j != at {
                    assert(after.entries[j] == switched.entries[j]);
                }
            }
        }
    }
}

} // verus!
