//! What holds of writing the enabled features to a manifest and reading
//! them back.

use vstd::prelude::*;
use crate::feature::EnabledState;
use crate::graph::{Direction, FeatureGraph};

verus! {

impl FeatureGraph {
    /// The same table with every feature switched off.
    pub open spec fn fresh(self) -> FeatureGraph {
        self.with_states(Seq::new(self.entries.len(), |i: int| EnabledState::Normal(false)))
    }

    /// One of `roots` is the feature at `i`, or implies it, directly or
    /// through other features.
    pub open spec fn implied_by_roots(self, roots: Seq<Seq<char>>, i: int) -> bool {
        exists|k: int|
            0 <= k < roots.len() && self.contains(#[trigger] roots[k]) && self.implies_transitively(
                self.index_of(roots[k]),
                i,
            )
    }

    /// The feature at `i` is written to the manifest, by its name or, where
    /// the default set is in use, as part of the default set.
    pub open spec fn is_root(self, uses_default: bool, i: int) -> bool {
        self.named_in_manifest(uses_default, i) || (uses_default && self.feature(i).is_default
            && self.enabled(i))
    }

    /// Tables of the same shape have the same chains of implication.
    pub proof fn lemma_same_shape_chain(self, other: FeatureGraph, chain: Seq<int>)
        requires
            self.same_shape(other),
            self.is_implication_chain(chain),
        ensures
            other.is_implication_chain(chain),
    {
        assert forall|k: int| 0 <= k < chain.len() - 1 implies other.implies(
            #[trigger] chain[k],
            chain[k + 1],
        ) by {
            assert(self.implies(chain[k], chain[k + 1]));
            assert(self.has_index(chain[k]));
            self.lemma_same_shape_passes(other, Direction::Enable, chain[k], chain[k + 1]);
        }
    }

    /// A chain that an enabling cascade walks is a chain of implication.
    pub proof fn lemma_chain_implies(self, chain: Seq<int>)
        requires
            self.is_chain(Direction::Enable, chain),
        ensures
            self.is_implication_chain(chain),
    {
        assert forall|k: int| 0 <= k < chain.len() - 1 implies self.implies(
            #[trigger] chain[k],
            chain[k + 1],
        ) by {
            assert(self.passes(Direction::Enable, chain[k], chain[k + 1]));
        }
    }

    /// In a table in which every enabled feature has the features it
    /// implies enabled, every feature along a chain of implication from an
    /// enabled feature is enabled.
    pub proof fn lemma_closed_along_chain(self, chain: Seq<int>, k: int)
        requires
            self.closed(),
            self.is_implication_chain(chain),
            self.enabled(chain[0]),
            0 <= k < chain.len(),
        ensures
            self.enabled(chain[k]),
        decreases k,
    {
        if k > 0 {
            self.lemma_closed_along_chain(chain, k - 1);
            assert(self.implies(chain[k - 1], chain[k - 1 + 1]));
        }
    }

    /// Switching features on, one after the other, in a table in which
    /// every feature is off: what is on in the end is what the features
    /// imply, and every enabled feature has the features it implies
    /// enabled.
    pub proof fn lemma_enable_each_from_fresh(self, names: Seq<Seq<char>>)
        requires
            self.wf(),
            forall|i: int| self.has_index(i) ==> !#[trigger] self.enabled(i),
            self.enable_each(names) is Some,
        ensures
            self.same_shape(self.enable_each(names).unwrap()),
            self.enable_each(names).unwrap().closed(),
            forall|i: int|
                self.has_index(i) ==> (#[trigger] self.enable_each(names).unwrap().enabled(i)
                    <==> self.implied_by_roots(names, i)),
        decreases names.len(),
    {
        let dir = Direction::Enable;
        if names.len() == 0 {
            assert(self.enable_each(names) == Some(self));
            FeatureGraph::lemma_same_shape_refl(self);
            assert forall|i: int, j: int| #[trigger]
                self.implies(i, j) && self.enabled(i) implies self.enabled(j) by {}
        } else {
            let earlier_names = names.drop_last();
            let name = names.last();
            self.lemma_enable_each_from_fresh(earlier_names);
            let earlier = self.enable_each(earlier_names).unwrap();
            let at = earlier.index_of(name);
            let after = earlier.cascade(dir, at);
            assert(self.enable_each(names) == Some(after));
            self.lemma_same_shape_contains(earlier, name);
            assert(earlier.entries[at].name == name);
            assert(self.entries[at].name == earlier.entries[at].name);
            self.lemma_index_of(at);
            earlier.lemma_cascade(dir, at);
            FeatureGraph::lemma_same_shape_trans(self, earlier, after);
            earlier.lemma_enable_keeps_closed(at);
            assert forall|i: int| self.has_index(i) implies (#[trigger] after.enabled(i)
                <==> self.implied_by_roots(names, i)) by {
                earlier.lemma_cascade_enabled(dir, at, i);
                if after.enabled(i) {
                    if earlier.enabled(i) {
                        let k = choose|k: int|
                            0 <= k < earlier_names.len() && self.contains(#[trigger] earlier_names[k])
                                && self.implies_transitively(self.index_of(earlier_names[k]), i);
                        assert(names[k] == earlier_names[k]);
                    } else {
                        let chain = choose|chain: Seq<int>| #[trigger]
                            earlier.is_chain(dir, chain) && chain[0] == at && chain.last() == i;
                        earlier.lemma_chain_implies(chain);
                        FeatureGraph::lemma_same_shape_sym(self, earlier);
                        earlier.lemma_same_shape_chain(self, chain);
                        assert(self.is_implication_chain(chain) && chain[0] == at && chain.last() == i);
                        assert(names[names.len() - 1] == name);
                    }
                }
                if self.implied_by_roots(names, i) {
                    let k = choose|k: int|
                        0 <= k < names.len() && self.contains(#[trigger] names[k])
                            && self.implies_transitively(self.index_of(names[k]), i);
                    if k < names.len() - 1 {
                        assert(earlier_names[k] == names[k]);
                        assert(self.implied_by_roots(earlier_names, i));
                    } else {
                        let chain = choose|chain: Seq<int>| #[trigger]
                            self.is_implication_chain(chain) && chain[0] == at && chain.last() == i;
                        self.lemma_same_shape_chain(earlier, chain);
                        earlier.lemma_enabled_along_chain(at, chain, chain.len() - 1);
                    }
                }
            }
        }
    }

    /// The feature at `i`, if it is enabled, is written to the manifest or
    /// implied by a feature that is.
    proof fn lemma_enabled_has_root(self, uses_default: bool, rank: Seq<nat>, i: int) -> (root: int)
        requires
            self.wf(),
            self.has_index(i),
            self.enabled(i),
            rank.len() == self.len(),
            forall|a: int| self.has_index(a) ==> #[trigger] self.state(a) != EnabledState::Workspace,
            forall|a: int| self.has_index(a) && #[trigger] self.enabled(a) ==> self.name(a) != "default"@,
            forall|a: int, b: int| #[trigger] self.requires_feature(a, b) ==> self.implies(a, b),
            forall|a: int, b: int| #[trigger]
                self.implies(a, b) && a != b && self.enabled(a) && self.enabled(b) ==> rank[a] < rank[b],
        ensures
            self.has_index(root),
            self.is_root(uses_default, root),
            self.implies_transitively(root, i),
        decreases rank[i],
    {
        if self.is_root(uses_default, i) {
            let chain = seq![i];
            assert(self.is_implication_chain(chain) && chain[0] == i && chain.last() == i);
            i
        } else {
            assert(self.has_other_dependent(i));
            let j = choose|j: int|
                self.has_index(j) && j != i && (#[trigger] self.entries[j]).feature.is_enabled()
                    && self.entries[j].feature.lists(self.name(i));
            assert(self.requires_feature(j, i));
            assert(self.implies(j, i));
            let root = self.lemma_enabled_has_root(uses_default, rank, j);
            let chain = choose|chain: Seq<int>| #[trigger]
                self.is_implication_chain(chain) && chain[0] == root && chain.last() == j;
            let longer = chain.push(i);
            assert forall|k: int| 0 <= k < longer.len() implies self.has_index(#[trigger] longer[k]) by {
                if k < chain.len() {
                    assert(longer[k] == chain[k]);
                }
            }
            assert forall|k: int| 0 <= k < longer.len() - 1 implies self.implies(
                #[trigger] longer[k],
                longer[k + 1],
            ) by {
                if k < chain.len() - 1 {
                    assert(longer[k] == chain[k]);
                    assert(longer[k + 1] == chain[k + 1]);
                }
            }
            assert(self.is_implication_chain(longer) && longer[0] == root && longer.last() == i);
            root
        }
    }

    /// Writing the enabled features to a manifest and reading them back
    /// gives the same enabled features: switching on, in a table of the
    /// same shape in which every feature is off, each feature that the
    /// manifest names, and each feature of the default set where that is
    /// in use, switches on what was on, and nothing else.
    ///
    /// This holds of a table in which every enabled feature has the
    /// features it implies enabled, no feature is inherited from the
    /// workspace, no enabled feature is called `default`, every entry that
    /// names a feature of the table is an entry for a feature of the same
    /// dependency, and no enabled feature implies itself through other
    /// enabled features: `rank` gives each enabled feature a number that is
    /// smaller than those of the other enabled features it implies.
    pub proof fn lemma_manifest_round_trip(
        self,
        uses_default: bool,
        roots: Seq<Seq<char>>,
        rank: Seq<nat>,
        read_back: FeatureGraph,
    )
        requires
            self.wf(),
            self.closed(),
            uses_default ==> self.defaults_enabled(),
            rank.len() == self.len(),
            forall|a: int| self.has_index(a) ==> #[trigger] self.state(a) != EnabledState::Workspace,
            forall|a: int| self.has_index(a) && #[trigger] self.enabled(a) ==> self.name(a) != "default"@,
            forall|a: int, b: int| #[trigger] self.requires_feature(a, b) ==> self.implies(a, b),
            forall|a: int, b: int| #[trigger]
                self.implies(a, b) && a != b && self.enabled(a) && self.enabled(b) ==> rank[a] < rank[b],
            forall|name: Seq<char>|
                roots.contains(name) <==> exists|i: int|
                    self.has_index(i) && #[trigger] self.name(i) == name && self.is_root(
                        uses_default,
                        i,
                    ),
            self.fresh().enable_each(roots) == Some(read_back),
        ensures
            self.same_shape(read_back),
            forall|i: int| self.has_index(i) ==> #[trigger] read_back.enabled(i) == self.enabled(i),
    {
        let fresh = self.fresh();
        assert(self.same_shape(fresh));
        assert(fresh.wf()) by {
            self.lemma_same_shape_contains(fresh, seq![]);
        }
        fresh.lemma_enable_each_from_fresh(roots);
        FeatureGraph::lemma_same_shape_trans(self, fresh, read_back);
        FeatureGraph::lemma_same_shape_sym(self, fresh);
        assert forall|i: int| self.has_index(i) implies #[trigger] read_back.enabled(i) == self.enabled(
            i,
        ) by {
            if read_back.enabled(i) {
                let k = choose|k: int|
                    0 <= k < roots.len() && fresh.contains(#[trigger] roots[k])
                        && fresh.implies_transitively(fresh.index_of(roots[k]), i);
                assert(roots.contains(roots[k]));
                let root = choose|root: int|
                    self.has_index(root) && #[trigger] self.name(root) == roots[k] && self.is_root(
                        uses_default,
                        root,
                    );
                assert(fresh.entries[root].name == self.entries[root].name);
                fresh.lemma_index_of(root);
                let chain = choose|chain: Seq<int>| #[trigger]
                    fresh.is_implication_chain(chain) && chain[0] == root && chain.last() == i;
                fresh.lemma_same_shape_chain(self, chain);
                self.lemma_closed_along_chain(chain, chain.len() - 1);
            }
            if self.enabled(i) {
                let root = self.lemma_enabled_has_root(uses_default, rank, i);
                let name = self.name(root);
                assert(roots.contains(name));
                let k = choose|k: int| 0 <= k < roots.len() && roots[k] == name;
                assert(fresh.entries[root].name == self.entries[root].name);
                fresh.lemma_index_of(root);
                let chain = choose|chain: Seq<int>| #[trigger]
                    self.is_implication_chain(chain) && chain[0] == root && chain.last() == i;
                self.lemma_same_shape_chain(fresh, chain);
                assert(fresh.is_implication_chain(chain) && chain[0] == root && chain.last() == i);
                assert(fresh.implied_by_roots(roots, i));
            }
        }
    }
}

} // verus!
