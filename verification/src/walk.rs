//! Walks over the names of features: from a feature to what it lists, or
//! from a feature to what lists it.

use vstd::prelude::*;
use vstd::set_lib::{lemma_int_range, lemma_len_subset, set_int_range};
use crate::graph::FeatureGraph;

verus! {

/// The two ways to walk from one name to the next.
pub enum Walk {
    /// From a feature to each name it lists, whatever the kind of the
    /// entry.
    Implied,
    /// From a name to each feature that lists it, whatever the kind of the
    /// entry.
    Requiring,
}

/// The names that a list does not hold.
pub open spec fn outside(list: Seq<Seq<char>>) -> Set<Seq<char>> {
    Set::new(|name: Seq<char>| !list.contains(name))
}

/// The names that a list holds.
pub open spec fn inside(list: Seq<Seq<char>>) -> Set<Seq<char>> {
    Set::new(|name: Seq<char>| list.contains(name))
}

impl FeatureGraph {
    /// The walk goes from the name `a` on to the name `b`.
    pub open spec fn leads(self, walk: Walk, a: Seq<char>, b: Seq<char>) -> bool {
        match walk {
            Walk::Implied => self.contains(a) && self.feature(self.index_of(a)).lists(b),
            Walk::Requiring => self.contains(b) && self.feature(self.index_of(b)).lists(a),
        }
    }

    /// A chain of names, all of them in `live`, along which the walk goes.
    pub open spec fn is_walk(self, walk: Walk, live: Set<Seq<char>>, chain: Seq<Seq<char>>) -> bool {
        &&& chain.len() > 0
        &&& forall|k: int| 0 <= k < chain.len() ==> live.contains(#[trigger] chain[k])
        &&& forall|k: int| 0 <= k < chain.len() - 1 ==> self.leads(walk, #[trigger] chain[k], chain[k + 1])
    }

    /// The walk from the name `from` comes to the name `to` without
    /// leaving `live`.
    pub open spec fn walks_to(
        self,
        walk: Walk,
        live: Set<Seq<char>>,
        from: Seq<char>,
        to: Seq<char>,
    ) -> bool {
        exists|chain: Seq<Seq<char>>| #[trigger]
            self.is_walk(walk, live, chain) && chain[0] == from && chain.last() == to
    }

    /// The places of the table whose names are in `live`.
    pub open spec fn live_places(self, live: Set<Seq<char>>) -> Set<int> {
        Set::new(|i: int| self.has_index(i) && live.contains(self.name(i)))
    }

    /// `later` is what is left of `live` at a stage of the walk from
    /// `from`: the start has been taken out, nothing has been taken out
    /// but what the walk comes to, and from what has been taken out, the
    /// start set aside, the walk leads to nothing that is left.
    pub open spec fn stage_of_walk(
        self,
        walk: Walk,
        live: Set<Seq<char>>,
        from: Seq<char>,
        later: Set<Seq<char>>,
    ) -> bool {
        &&& later.subset_of(live)
        &&& live.contains(from)
        &&& !later.contains(from)
        &&& forall|name: Seq<char>|
            live.contains(name) && !later.contains(name) ==> #[trigger] self.walks_to(
                walk,
                live,
                from,
                name,
            )
        &&& forall|a: Seq<char>, b: Seq<char>|
            live.contains(a) && !later.contains(a) && a != from && #[trigger] self.leads(walk, a, b)
                ==> !later.contains(b)
    }

    /// The walk comes to the name it starts from, if that is in `live`.
    pub proof fn lemma_walk_start(self, walk: Walk, live: Set<Seq<char>>, from: Seq<char>)
        requires
            live.contains(from),
        ensures
            self.walks_to(walk, live, from, from),
    {
        let chain = seq![from];
        assert(self.is_walk(walk, live, chain) && chain[0] == from && chain.last() == from);
    }

    /// The walk starts and ends in `live`.
    pub proof fn lemma_walk_live(
        self,
        walk: Walk,
        live: Set<Seq<char>>,
        from: Seq<char>,
        to: Seq<char>,
    )
        requires
            self.walks_to(walk, live, from, to),
        ensures
            live.contains(from),
            live.contains(to),
    {
        let chain = choose|chain: Seq<Seq<char>>| #[trigger]
            self.is_walk(walk, live, chain) && chain[0] == from && chain.last() == to;
        assert(live.contains(chain[0]));
        assert(live.contains(chain[chain.len() - 1]));
    }

    /// The walk goes on from each name it comes to.
    pub proof fn lemma_walk_next(
        self,
        walk: Walk,
        live: Set<Seq<char>>,
        from: Seq<char>,
        via: Seq<char>,
        to: Seq<char>,
    )
        requires
            self.walks_to(walk, live, from, via),
            self.leads(walk, via, to),
            live.contains(to),
        ensures
            self.walks_to(walk, live, from, to),
    {
        let chain = choose|chain: Seq<Seq<char>>| #[trigger]
            self.is_walk(walk, live, chain) && chain[0] == from && chain.last() == via;
        let longer = chain.push(to);
        assert forall|k: int| 0 <= k < longer.len() implies live.contains(#[trigger] longer[k]) by {
            if k < chain.len() {
                assert(longer[k] == chain[k]);
            }
        }
        assert forall|k: int| 0 <= k < longer.len() - 1 implies self.leads(
            walk,
            #[trigger] longer[k],
            longer[k + 1],
        ) by {
            if k < chain.len() - 1 {
                assert(longer[k] == chain[k]);
                assert(longer[k + 1] == chain[k + 1]);
            }
        }
        assert(self.is_walk(walk, live, longer) && longer[0] == from && longer.last() == to);
    }

    /// What the walk comes to from a name that the start leads to, within
    /// a part of `live`, the walk from the start comes to within `live`.
    pub proof fn lemma_walk_through(
        self,
        walk: Walk,
        live: Set<Seq<char>>,
        later: Set<Seq<char>>,
        from: Seq<char>,
        via: Seq<char>,
        to: Seq<char>,
    )
        requires
            later.subset_of(live),
            live.contains(from),
            self.leads(walk, from, via),
            self.walks_to(walk, later, via, to),
        ensures
            self.walks_to(walk, live, from, to),
    {
        let chain = choose|chain: Seq<Seq<char>>| #[trigger]
            self.is_walk(walk, later, chain) && chain[0] == via && chain.last() == to;
        let longer = seq![from] + chain;
        assert forall|k: int| 0 <= k < longer.len() implies live.contains(#[trigger] longer[k]) by {
            if k > 0 {
                assert(longer[k] == chain[k - 1]);
                assert(later.contains(chain[k - 1]));
            }
        }
        assert forall|k: int| 0 <= k < longer.len() - 1 implies self.leads(
            walk,
            #[trigger] longer[k],
            longer[k + 1],
        ) by {
            if k > 0 {
                assert(longer[k] == chain[k - 1]);
                assert(longer[k + 1] == chain[k]);
                assert(self.leads(walk, chain[k - 1], chain[k - 1 + 1]));
            } else {
                assert(longer[1] == chain[0]);
            }
        }
        assert(longer.last() == chain.last());
        assert(self.is_walk(walk, live, longer) && longer[0] == from && longer.last() == to);
    }

    proof fn lemma_walk_taken(
        self,
        walk: Walk,
        live: Set<Seq<char>>,
        later: Set<Seq<char>>,
        chain: Seq<Seq<char>>,
        k: int,
    )
        requires
            self.is_walk(walk, live, chain),
            !later.contains(chain[0]),
            forall|a: Seq<char>, b: Seq<char>|
                live.contains(a) && !later.contains(a) && #[trigger] self.leads(walk, a, b)
                    ==> !later.contains(b),
            0 <= k < chain.len(),
        ensures
            !later.contains(chain[k]),
        decreases k,
    {
        if k > 0 {
            self.lemma_walk_taken(walk, live, later, chain, k - 1);
            assert(live.contains(chain[k - 1]));
            assert(self.leads(walk, chain[k - 1], chain[k - 1 + 1]));
        }
    }

    /// A stage of a walk at which the start too leads to nothing that is
    /// left is the end of the walk: what has been taken out is what the
    /// walk comes to.
    pub proof fn lemma_walk_complete(
        self,
        walk: Walk,
        live: Set<Seq<char>>,
        from: Seq<char>,
        later: Set<Seq<char>>,
    )
        requires
            self.stage_of_walk(walk, live, from, later),
            forall|b: Seq<char>| #[trigger] self.leads(walk, from, b) ==> !later.contains(b),
        ensures
            forall|name: Seq<char>|
                later.contains(name) <==> live.contains(name) && !self.walks_to(
                    walk,
                    live,
                    from,
                    name,
                ),
    {
        assert forall|name: Seq<char>|
            later.contains(name) <==> live.contains(name) && !self.walks_to(
                walk,
                live,
                from,
                name,
            ) by {
            if self.walks_to(walk, live, from, name) {
                let chain = choose|chain: Seq<Seq<char>>| #[trigger]
                    self.is_walk(walk, live, chain) && chain[0] == from && chain.last() == name;
                self.lemma_walk_taken(walk, live, later, chain, chain.len() - 1);
            }
        }
    }

    /// From a stage of a walk to the next: once the walk from a name that
    /// the start leads to has taken out what it comes to, the rest is a
    /// stage of the walk again, and that name is not in it.
    pub proof fn lemma_stage_step(
        self,
        walk: Walk,
        live: Set<Seq<char>>,
        from: Seq<char>,
        later: Set<Seq<char>>,
        via: Seq<char>,
        after: Set<Seq<char>>,
    )
        requires
            self.stage_of_walk(walk, live, from, later),
            self.leads(walk, from, via),
            forall|name: Seq<char>|
                after.contains(name) <==> later.contains(name) && !self.walks_to(
                    walk,
                    later,
                    via,
                    name,
                ),
        ensures
            self.stage_of_walk(walk, live, from, after),
            after.subset_of(later),
            !after.contains(via),
    {
        if later.contains(via) {
            self.lemma_walk_start(walk, later, via);
        }
        assert forall|name: Seq<char>| live.contains(name) && !after.contains(name) implies #[trigger] self.walks_to(
            walk,
            live,
            from,
            name,
        ) by {
            if later.contains(name) {
                self.lemma_walk_through(walk, live, later, from, via, name);
            }
        }
        assert forall|a: Seq<char>, b: Seq<char>|
            live.contains(a) && !after.contains(a) && a != from && #[trigger] self.leads(
                walk,
                a,
                b,
            ) implies !after.contains(b) by {
            if later.contains(a) {
                if later.contains(b) {
                    self.lemma_walk_next(walk, later, via, a, b);
                }
            }
        }
    }

    /// A walk from a name outside `live` comes to nothing.
    pub proof fn lemma_walk_idle(self, walk: Walk, live: Set<Seq<char>>, from: Seq<char>)
        requires
            !live.contains(from),
        ensures
            forall|name: Seq<char>| !self.walks_to(walk, live, from, name),
    {
        assert forall|name: Seq<char>| !self.walks_to(walk, live, from, name) by {
            if self.walks_to(walk, live, from, name) {
                self.lemma_walk_live(walk, live, from, name);
            }
        }
    }

    /// The places whose names are in `live` are finitely many, and fewer
    /// in a part of `live` that misses the name of a place.
    pub proof fn lemma_live_places(self, live: Set<Seq<char>>, later: Set<Seq<char>>)
        requires
            later.subset_of(live),
        ensures
            self.live_places(live).finite(),
            self.live_places(later).len() <= self.live_places(live).len(),
            forall|i: int|
                self.has_index(i) && live.contains(#[trigger] self.name(i)) && !later.contains(
                    self.name(i),
                ) ==> self.live_places(later).len() < self.live_places(live).len(),
    {
        lemma_int_range(0, self.len() as int);
        let range = set_int_range(0, self.len() as int);
        assert(self.live_places(live).subset_of(range));
        assert(self.live_places(later).subset_of(range));
        lemma_len_subset(self.live_places(live), range);
        lemma_len_subset(self.live_places(later), range);
        assert(self.live_places(later).subset_of(self.live_places(live)));
        lemma_len_subset(self.live_places(later), self.live_places(live));
        assert forall|i: int|
            self.has_index(i) && live.contains(#[trigger] self.name(i)) && !later.contains(
                self.name(i),
            ) implies self.live_places(later).len() < self.live_places(live).len() by {
            let fewer = self.live_places(live).remove(i);
            assert(self.live_places(live).contains(i));
            assert(self.live_places(later).subset_of(fewer));
            lemma_len_subset(self.live_places(later), fewer);
        }
    }
}

} // verus!
