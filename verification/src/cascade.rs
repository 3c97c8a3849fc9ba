//! What holds of switching features on and off, whatever the table.

use vstd::prelude::*;
use crate::feature::EnabledState;
use crate::graph::{Direction, FeatureGraph};

verus! {

impl FeatureGraph {
    /// A chain of features in which each lists the next as a feature of the
    /// same dependency.
    pub open spec fn is_implication_chain(self, chain: Seq<int>) -> bool {
        &&& chain.len() > 0
        &&& forall|k: int| 0 <= k < chain.len() ==> self.has_index(#[trigger] chain[k])
        &&& forall|k: int| 0 <= k < chain.len() - 1 ==> self.implies(#[trigger] chain[k], chain[k + 1])
    }

    /// Feature `to` is `from` itself or a sub-feature of `from`, directly or
    /// through other features of the same dependency.
    pub open spec fn implies_transitively(self, from: int, to: int) -> bool {
        exists|chain: Seq<int>| #[trigger]
            self.is_implication_chain(chain) && chain[0] == from && chain.last() == to
    }

    /// After a cascade a feature is enabled exactly if it was enabled before
    /// and the cascade did not switch it off, or the cascade switched it on.
    pub proof fn lemma_cascade_enabled(self, dir: Direction, from: int, i: int)
        requires
            self.has_index(i),
        ensures
            self.cascade(dir, from).enabled(i) == match dir {
                Direction::Enable => self.enabled(i) || self.reaches(dir, from, i),
                Direction::Disable => self.enabled(i) && !self.reaches(dir, from, i),
            },
    {
        if self.reaches(dir, from, i) {
            self.lemma_reaches_pending(dir, from, i);
        }
    }

    /// Switching a feature on twice in a row leaves the table as switching
    /// it on once does, whether or not the first call succeeded.
    pub proof fn lemma_enable_twice(
        self,
        name: Seq<char>,
        once: FeatureGraph,
        first: bool,
        twice: FeatureGraph,
        second: bool,
    )
        requires
            self.wf(),
            self.enable_outcome(name, once, first),
            once.enable_outcome(name, twice, second),
        ensures
            twice == once,
    {
        if self.contains(name) {
            let from = self.index_of(name);
            self.lemma_same_shape_contains(once, name);
            assert(once.entries[from].name == self.entries[from].name);
            once.lemma_index_of(from);
            once.lemma_cascade_idle(Direction::Enable, from);
            assert(!once.enable_fails(from));
        }
    }

    /// Switching a feature off twice in a row leaves the table as switching
    /// it off once does.
    pub proof fn lemma_disable_twice(self, name: Seq<char>)
        requires
            self.wf(),
        ensures
            self.disable_feature(name).disable_feature(name) == self.disable_feature(name),
    {
        if self.contains(name) {
            let from = self.index_of(name);
            let once = self.cascade(Direction::Disable, from);
            self.lemma_cascade(Direction::Disable, from);
            self.lemma_same_shape_contains(once, name);
            assert(once.entries[from].name == self.entries[from].name);
            once.lemma_index_of(from);
            if self.enabled(from) {
                self.lemma_reaches_start(Direction::Disable, from);
            }
            self.lemma_cascade_enabled(Direction::Disable, from, from);
            once.lemma_cascade_idle(Direction::Disable, from);
        }
    }

    /// Switching a feature on switches on every feature that it implies,
    /// directly or through others, in a table in which every enabled
    /// feature had the features it implies enabled.
    pub proof fn lemma_enable_reaches_implied(self, name: Seq<char>, after: FeatureGraph, to: int)
        requires
            self.wf(),
            self.closed(),
            self.contains(name),
            self.enable_outcome(name, after, true),
            self.implies_transitively(self.index_of(name), to),
        ensures
            after.enabled(to),
    {
        let from = self.index_of(name);
        let chain = choose|chain: Seq<int>| #[trigger]
            self.is_implication_chain(chain) && chain[0] == from && chain.last() == to;
        self.lemma_enabled_along_chain(from, chain, chain.len() - 1);
    }

    /// An enabling cascade switches on every feature along a chain of
    /// implication from its start, in a table in which every enabled
    /// feature had the features it implies enabled.
    pub proof fn lemma_enabled_along_chain(self, from: int, chain: Seq<int>, k: int)
        requires
            self.closed(),
            self.has_index(from),
            self.is_implication_chain(chain),
            chain[0] == from,
            0 <= k < chain.len(),
        ensures
            self.cascade(Direction::Enable, from).enabled(chain[k]),
        decreases k,
    {
        let dir = Direction::Enable;
        if k == 0 {
            if !self.enabled(from) {
                self.lemma_reaches_start(dir, from);
            }
            self.lemma_cascade_enabled(dir, from, from);
        } else {
            self.lemma_enabled_along_chain(from, chain, k - 1);
            let i = chain[k - 1];
            let j = chain[k];
            assert(self.has_index(i) && self.has_index(j));
            assert(self.implies(chain[k - 1], chain[k - 1 + 1]));
            self.lemma_cascade_enabled(dir, from, i);
            self.lemma_cascade_enabled(dir, from, j);
            if !self.enabled(j) {
                assert(!self.enabled(i));
                self.lemma_reaches_next(dir, from, i, j);
            }
        }
    }

    /// Switching a feature off switches off every feature that implies it,
    /// directly or through others, in a table in which every enabled
    /// feature had the features it implies enabled.
    pub proof fn lemma_disable_reaches_implying(self, name: Seq<char>, from: int)
        requires
            self.wf(),
            self.closed(),
            self.contains(name),
            self.implies_transitively(from, self.index_of(name)),
        ensures
            !self.disable_feature(name).enabled(from),
    {
        let to = self.index_of(name);
        let chain = choose|chain: Seq<int>| #[trigger]
            self.is_implication_chain(chain) && chain[0] == from && chain.last() == to;
        self.lemma_disabled_along(to, chain, 0);
    }

    proof fn lemma_disabled_along(self, to: int, chain: Seq<int>, k: int)
        requires
            self.closed(),
            self.has_index(to),
            self.is_implication_chain(chain),
            chain.last() == to,
            0 <= k < chain.len(),
        ensures
            !self.cascade(Direction::Disable, to).enabled(chain[k]),
        decreases chain.len() - k,
    {
        let dir = Direction::Disable;
        if k == chain.len() - 1 {
            if self.enabled(to) {
                self.lemma_reaches_start(dir, to);
            }
            self.lemma_cascade_enabled(dir, to, to);
        } else {
            self.lemma_disabled_along(to, chain, k + 1);
            let i = chain[k];
            let j = chain[k + 1];
            assert(self.has_index(i) && self.has_index(j));
            assert(self.implies(chain[k], chain[k + 1]));
            self.lemma_cascade_enabled(dir, to, i);
            self.lemma_cascade_enabled(dir, to, j);
            if self.enabled(i) {
                assert(self.enabled(j));
                assert(self.reaches(dir, to, j));
                let k = choose|k: int|
                    0 <= k < self.entries[i].feature.sub_features.len() && (
                    #[trigger] self.entries[i].feature.sub_features[k]).name == self.entries[j].name
                        && self.entries[i].feature.sub_features[k].kind
                        == crate::feature::SubFeatureType::Normal;
                assert(self.entries[i].feature.sub_features[k].name == self.entries[j].name);
                assert(self.passes(dir, j, i));
                self.lemma_reaches_next(dir, to, j, i);
            }
        }
    }

    /// A successful enabling cascade keeps a table in which every enabled
    /// feature has the features it implies enabled.
    pub proof fn lemma_enable_keeps_closed(self, from: int)
        requires
            self.closed(),
            self.has_index(from),
        ensures
            self.cascade(Direction::Enable, from).closed(),
    {
        let dir = Direction::Enable;
        let after = self.cascade(dir, from);
        self.lemma_cascade(dir, from);
        assert forall|i: int, j: int| #[trigger] after.implies(i, j) && after.enabled(i) implies after.enabled(
            j,
        ) by {
            self.lemma_same_shape_passes(after, dir, i, j);
            assert(self.implies(i, j));
            self.lemma_cascade_enabled(dir, from, i);
            self.lemma_cascade_enabled(dir, from, j);
            if !self.enabled(j) {
                assert(!self.enabled(i));
                self.lemma_reaches_next(dir, from, i, j);
            }
        }
    }

    /// A disabling cascade keeps a table in which every enabled feature has
    /// the features it implies enabled.
    pub proof fn lemma_disable_keeps_closed(self, from: int)
        requires
            self.closed(),
            self.has_index(from),
        ensures
            self.cascade(Direction::Disable, from).closed(),
    {
        let dir = Direction::Disable;
        let after = self.cascade(dir, from);
        self.lemma_cascade(dir, from);
        assert forall|i: int, j: int| #[trigger] after.implies(i, j) && after.enabled(i) implies after.enabled(
            j,
        ) by {
            self.lemma_same_shape_passes(after, Direction::Enable, i, j);
            assert(self.implies(i, j));
            self.lemma_cascade_enabled(dir, from, i);
            self.lemma_cascade_enabled(dir, from, j);
            assert(self.enabled(i) && self.enabled(j));
            if self.reaches(dir, from, j) {
                let k = choose|k: int|
                    0 <= k < self.entries[i].feature.sub_features.len() && (
                    #[trigger] self.entries[i].feature.sub_features[k]).name == self.entries[j].name
                        && self.entries[i].feature.sub_features[k].kind
                        == crate::feature::SubFeatureType::Normal;
                assert(self.entries[i].feature.sub_features[k].name == self.entries[j].name);
                assert(self.passes(dir, j, i));
                self.lemma_reaches_next(dir, from, j, i);
            }
        }
    }
}

} // verus!
