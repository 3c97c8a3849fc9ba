//! Sets of features that belong together: a feature with what it implies,
//! a feature with what requires it.

use vstd::prelude::*;
use crate::dependency::Dependency;
use crate::graph::FeatureGraph;
use crate::names::{contains_name, views};
use crate::walk::{inside, outside, Walk};

verus! {

/// Both choices keep the same elements where they agree on the elements.
pub proof fn lemma_filter_agree<A>(s: Seq<A>, p: spec_fn(A) -> bool, q: spec_fn(A) -> bool)
    requires
        forall|i: int| 0 <= i < s.len() ==> p(#[trigger] s[i]) == q(s[i]),
    ensures
        s.filter(p) == s.filter(q),
    decreases s.len(),
{
    reveal(Seq::filter);
    if s.len() > 0 {
        lemma_filter_agree(s.drop_last(), p, q);
    }
}

/// Choosing twice is choosing by both.
pub proof fn lemma_filter_twice<A>(s: Seq<A>, p: spec_fn(A) -> bool, q: spec_fn(A) -> bool)
    ensures
        s.filter(p).filter(q) == s.filter(|x: A| p(x) && q(x)),
    decreases s.len(),
{
    reveal(Seq::filter);
    let both = |x: A| p(x) && q(x);
    if s.len() > 0 {
        lemma_filter_twice(s.drop_last(), p, q);
        if p(s.last()) {
            s.drop_last().filter(p).lemma_filter_push(s.last(), q);
        }
    } else {
        assert(s.filter(p).len() == 0);
    }
}

/// What a choice keeps is what the sequence holds and the choice takes.
pub proof fn lemma_filter_holds<A>(s: Seq<A>, p: spec_fn(A) -> bool)
    ensures
        forall|x: A| s.filter(p).contains(x) <==> s.contains(x) && p(x),
        s.filter(p).len() <= s.len(),
        s.no_duplicates() ==> s.filter(p).no_duplicates(),
    decreases s.len(),
{
    reveal(Seq::filter);
    if s.len() > 0 {
        let front = s.drop_last();
        lemma_filter_holds(front, p);
        assert forall|x: A| s.filter(p).contains(x) <==> s.contains(x) && p(x) by {
            if s.contains(x) {
                let i = choose|i: int| 0 <= i < s.len() && s[i] == x;
                if i < s.len() - 1 {
                    assert(front[i] == x);
                }
            }
            if front.contains(x) {
                let i = choose|i: int| 0 <= i < front.len() && front[i] == x;
                assert(s[i] == x);
            }
            if p(s.last()) {
                let kept = front.filter(p).push(s.last());
                assert(kept[kept.len() - 1] == s.last());
                if front.filter(p).contains(x) {
                    let i = choose|i: int| 0 <= i < front.filter(p).len() && front.filter(p)[i] == x;
                    assert(kept[i] == x);
                }
                if kept.contains(x) {
                    let i = choose|i: int| 0 <= i < kept.len() && kept[i] == x;
                    if i < kept.len() - 1 {
                        assert(front.filter(p)[i] == x);
                    }
                }
            }
            assert(s[s.len() - 1] == s.last());
        }
        if s.no_duplicates() {
            assert forall|i: int, j: int|
                0 <= i < front.len() && 0 <= j < front.len() && i != j implies front[i] != front[j] by {
                assert(s[i] == front[i]);
                assert(s[j] == front[j]);
            }
            if p(s.last()) {
                let chosen = front.filter(p);
                let kept = chosen.push(s.last());
                assert forall|i: int| 0 <= i < chosen.len() implies chosen[i] != s.last() by {
                    assert(chosen.contains(chosen[i]));
                    assert(front.contains(chosen[i]));
                    let k = choose|k: int| 0 <= k < front.len() && front[k] == chosen[i];
                    assert(s[k] == front[k]);
                    assert(s[s.len() - 1] == s.last());
                }
                assert forall|i: int, j: int|
                    0 <= i < kept.len() && 0 <= j < kept.len() && i != j implies kept[i] != kept[j] by {
                    if i < chosen.len() {
                        assert(kept[i] == chosen[i]);
                    }
                    if j < chosen.len() {
                        assert(kept[j] == chosen[j]);
                    }
                }
            }
        }
    }
}

/// The names of `list` that are in `live`, in their order.
pub open spec fn keep_names(list: Seq<Seq<char>>, live: Set<Seq<char>>) -> Seq<Seq<char>> {
    list.filter(|name: Seq<char>| live.contains(name))
}

/// Every name but `name`.
pub open spec fn all_but(name: Seq<char>) -> Set<Seq<char>> {
    Set::new(|other: Seq<char>| other != name)
}

/// What is kept of a list is what the list holds of the names to keep.
pub proof fn lemma_keep_holds(list: Seq<Seq<char>>, live: Set<Seq<char>>)
    ensures
        forall|name: Seq<char>|
            keep_names(list, live).contains(name) <==> list.contains(name) && live.contains(name),
        keep_names(list, live).len() <= list.len(),
        list.no_duplicates() ==> keep_names(list, live).no_duplicates(),
{
    lemma_filter_holds(list, |name: Seq<char>| live.contains(name));
}

/// Keeping twice is keeping what is in both sets.
pub proof fn lemma_keep_twice(list: Seq<Seq<char>>, first: Set<Seq<char>>, second: Set<Seq<char>>)
    ensures
        keep_names(keep_names(list, first), second) == keep_names(list, first.intersect(second)),
{
    let p = |name: Seq<char>| first.contains(name);
    let q = |name: Seq<char>| second.contains(name);
    lemma_filter_twice(list, p, q);
    lemma_filter_agree(
        list,
        |name: Seq<char>| p(name) && q(name),
        |name: Seq<char>| first.intersect(second).contains(name),
    );
}

/// Two sets that agree on the names of a list keep the same of it.
pub proof fn lemma_keep_agree(list: Seq<Seq<char>>, first: Set<Seq<char>>, second: Set<Seq<char>>)
    requires
        forall|i: int| 0 <= i < list.len() ==> first.contains(#[trigger] list[i]) == second.contains(list[i]),
    ensures
        keep_names(list, first) == keep_names(list, second),
{
    lemma_filter_agree(
        list,
        |name: Seq<char>| first.contains(name),
        |name: Seq<char>| second.contains(name),
    );
}

/// A set that holds every name of a list keeps all of it.
pub proof fn lemma_keep_all(list: Seq<Seq<char>>, live: Set<Seq<char>>)
    requires
        forall|i: int| 0 <= i < list.len() ==> live.contains(#[trigger] list[i]),
    ensures
        keep_names(list, live) == list,
{
    lemma_filter_agree(list, |name: Seq<char>| live.contains(name), |name: Seq<char>| true);
    lemma_filter_all(list);
}

/// Takes every occurrence of `name` out of `names`, and says whether there
/// was one.
pub fn remove_name(names: &mut Vec<String>, name: &String) -> (found: bool)
    ensures
        found == views(old(names)@).contains(name@),
        views(final(names)@) == keep_names(views(old(names)@), all_but(name@)),
        found ==> final(names)@.len() < old(names)@.len(),
        !found ==> views(final(names)@) == views(old(names)@),
{
    let ghost differs = |other: Seq<char>| all_but(name@).contains(other);
    let ghost before = views(names@);
    let mut kept: Vec<String> = Vec::new();
    let mut found = false;
    let mut i: usize = 0;
    proof {
        assert(before.take(0) =~= Seq::<Seq<char>>::empty());
        Seq::<Seq<char>>::empty().lemma_filter_len(differs);
        assert(views(kept@) =~= before.take(0).filter(differs));
    }
    while i < names.len()
        invariant
            i <= names.len(),
            before == views(names@),
            differs == |other: Seq<char>| all_but(name@).contains(other),
            views(kept@) == before.take(i as int).filter(differs),
            found == before.take(i as int).contains(name@),
            found ==> kept@.len() < i,
            !found ==> views(kept@) == before.take(i as int),
        decreases names.len() - i,
    {
        let ghost seen = before.take(i as int);
        let ghost earlier = views(kept@);
        proof {
            assert(before.take(i + 1) =~= seen.push(before[i as int]));
            seen.lemma_filter_push(before[i as int], differs);
            seen.lemma_filter_len(differs);
            assert(before.take(i + 1)[i as int] == before[i as int]);
            if seen.contains(name@) {
                let k = choose|k: int| 0 <= k < seen.len() && seen[k] == name@;
                assert(before.take(i + 1)[k] == name@);
            }
            if before.take(i + 1).contains(name@) {
                let longer = before.take(i + 1);
                let k = choose|k: int| 0 <= k < longer.len() && longer[k] == name@;
                if k < i {
                    assert(seen[k] == name@);
                }
            }
        }
        if names[i] == *name {
            found = true;
        } else {
            kept.push(names[i].clone());
            proof {
                assert(views(kept@) =~= earlier.push(before[i as int]));
            }
        }
        i += 1;
    }
    proof {
        assert(before.take(names@.len() as int) =~= before);
    }
    *names = kept;
    found
}

/// Adds `feature` to `to_be_disabled`, and with it every name that it
/// lists, whatever the kind of the entry, directly or through other
/// features of `dependency`. A name that the list holds already is neither
/// added nor followed.
pub fn set_features_to_be_kept(
    dependency: &Dependency,
    feature: String,
    to_be_disabled: &mut Vec<String>,
)
    ensures
        views(old(to_be_disabled)@).is_prefix_of(views(final(to_be_disabled)@)),
        forall|name: Seq<char>|
            views(final(to_be_disabled)@).contains(name) <==> views(old(to_be_disabled)@).contains(name)
                || dependency.features@.walks_to(
                Walk::Implied,
                outside(views(old(to_be_disabled)@)),
                feature@,
                name,
            ),
        views(old(to_be_disabled)@).no_duplicates() ==> views(final(to_be_disabled)@).no_duplicates(),
    decreases
            dependency.features@.live_places(outside(views(old(to_be_disabled)@))).len(),
            (if dependency.features@.contains(feature@) {
                0nat
            } else {
                1nat
            }),
{
    let ghost graph = dependency.features@;
    let ghost walk = Walk::Implied;
    let ghost start = views(to_be_disabled@);
    let ghost live = outside(start);
    if contains_name(to_be_disabled, &feature) {
        proof {
            graph.lemma_walk_idle(walk, live, feature@);
        }
        return ;
    }
    to_be_disabled.push(feature.clone());
    proof {
        let later = outside(views(to_be_disabled@));
        assert(views(to_be_disabled@) =~= start.push(feature@));
        assert(views(to_be_disabled@)[start.len() as int] == feature@);
        graph.lemma_walk_start(walk, live, feature@);
        assert forall|name: Seq<char>| live.contains(name) && !later.contains(name) implies name == feature@ by {
            let k = choose|k: int| 0 <= k < views(to_be_disabled@).len() && views(to_be_disabled@)[k] == name;
            if k < start.len() {
                assert(start[k] == name);
            }
        }
        assert forall|name: Seq<char>| later.contains(name) implies live.contains(name) by {
            if start.contains(name) {
                let k = choose|k: int| 0 <= k < start.len() && start[k] == name;
                assert(views(to_be_disabled@)[k] == name);
            }
        }
        assert(graph.stage_of_walk(walk, live, feature@, later));
        graph.lemma_live_places(live, later);
        assert forall|a: int, b: int| 0 <= a < views(to_be_disabled@).len() && 0 <= b < views(to_be_disabled@).len() && a != b && start.no_duplicates()
            implies views(to_be_disabled@)[a] != views(to_be_disabled@)[b] by {
            if a < start.len() {
                assert(start.contains(start[a]));
            }
            if b < start.len() {
                assert(start.contains(start[b]));
            }
        }
    }
    match dependency.features.position(&feature) {
        None => {
            proof {
                let end = outside(views(to_be_disabled@));
                graph.lemma_walk_complete(walk, live, feature@, end);
                assert forall|name: Seq<char>|
                    views(to_be_disabled@).contains(name) <==> start.contains(name) || graph.walks_to(
                        walk,
                        live,
                        feature@,
                        name,
                    ) by {
                    assert(end.contains(name) == !views(to_be_disabled@).contains(name));
                    assert(live.contains(name) == !start.contains(name));
                    if graph.walks_to(walk, live, feature@, name) {
                        graph.lemma_walk_live(walk, live, feature@, name);
                    }
                }
            }
        },
        Some(place) => {
            let data = dependency.features.data_at(place);
            let mut k: usize = 0;
            while k < data.sub_features.len()
                invariant
                    graph == dependency.features@,
                    graph.wf(),
                    walk == Walk::Implied,
                    start == views(old(to_be_disabled)@),
                    live == outside(start),
                    place < graph.len(),
                    place == graph.index_of(feature@),
                    graph.contains(feature@),
                    graph.name(place as int) == feature@,
                    data@ == graph.feature(place as int),
                    k <= data.sub_features.len(),
                    start.is_prefix_of(views(to_be_disabled@)),
                    start.no_duplicates() ==> views(to_be_disabled@).no_duplicates(),
                    graph.stage_of_walk(walk, live, feature@, outside(views(to_be_disabled@))),
                    forall|c: int|
                        0 <= c < k ==> views(to_be_disabled@).contains(
                            (#[trigger] graph.feature(place as int).sub_features[c]).name,
                        ),
                    graph.live_places(outside(views(to_be_disabled@))).len() < graph.live_places(live).len(),
                decreases data.sub_features.len() - k,
            {
                let ghost before = views(to_be_disabled@);
                let ghost later = outside(before);
                let next = data.sub_features[k].name.clone();
                assert(next@ == graph.feature(place as int).sub_features[k as int].name);
                set_features_to_be_kept(dependency, next, to_be_disabled);
                proof {
                    let now = views(to_be_disabled@);
                    let after = outside(now);
                    assert(graph.leads(walk, feature@, next@));
                    graph.lemma_stage_step(walk, live, feature@, later, next@, after);
                    graph.lemma_live_places(later, after);
                    assert forall|c: int| 0 <= c < k + 1 implies now.contains(
                        (#[trigger] graph.feature(place as int).sub_features[c]).name,
                    ) by {
                        if c < k {
                            assert(before.contains(graph.feature(place as int).sub_features[c].name));
                        }
                    }
                }
                k += 1;
            }
            proof {
                let end = outside(views(to_be_disabled@));
                assert forall|b: Seq<char>| #[trigger] graph.leads(walk, feature@, b) implies !end.contains(b) by {
                    let c = choose|c: int|
                        0 <= c < graph.feature(place as int).sub_features.len() && #[trigger] graph.feature(
                            place as int,
                        ).sub_features[c].name == b;
                    assert(views(to_be_disabled@).contains(graph.feature(place as int).sub_features[c].name));
                }
                graph.lemma_walk_complete(walk, live, feature@, end);
                assert forall|name: Seq<char>|
                    views(to_be_disabled@).contains(name) <==> start.contains(name) || graph.walks_to(
                        walk,
                        live,
                        feature@,
                        name,
                    ) by {
                    assert(end.contains(name) == !views(to_be_disabled@).contains(name));
                    assert(live.contains(name) == !start.contains(name));
                    if graph.walks_to(walk, live, feature@, name) {
                        graph.lemma_walk_live(walk, live, feature@, name);
                    }
                }
            }
        },
    }
}

/// Adds `feature` to `to_be_disabled`, and with it every feature of
/// `dependency` that requires it, directly or through others: every feature
/// that lists the name, whatever the kind of the entry. A name that the
/// list holds already is neither added nor followed.
pub fn set_features_to_be_disabled(
    dependency: &Dependency,
    feature: String,
    to_be_disabled: &mut Vec<String>,
)
    ensures
        views(old(to_be_disabled)@).is_prefix_of(views(final(to_be_disabled)@)),
        forall|name: Seq<char>|
            views(final(to_be_disabled)@).contains(name) <==> views(old(to_be_disabled)@).contains(name)
                || dependency.features@.walks_to(
                Walk::Requiring,
                outside(views(old(to_be_disabled)@)),
                feature@,
                name,
            ),
        views(old(to_be_disabled)@).no_duplicates() ==> views(final(to_be_disabled)@).no_duplicates(),
    decreases
            dependency.features@.live_places(outside(views(old(to_be_disabled)@))).len(),
            (if dependency.features@.contains(feature@) {
                0nat
            } else {
                1nat
            }),
{
    let ghost graph = dependency.features@;
    let ghost walk = Walk::Requiring;
    let ghost start = views(to_be_disabled@);
    let ghost live = outside(start);
    if contains_name(to_be_disabled, &feature) {
        proof {
            graph.lemma_walk_idle(walk, live, feature@);
        }
        return ;
    }
    to_be_disabled.push(feature.clone());
    proof {
        let later = outside(views(to_be_disabled@));
        assert(views(to_be_disabled@) =~= start.push(feature@));
        assert(views(to_be_disabled@)[start.len() as int] == feature@);
        graph.lemma_walk_start(walk, live, feature@);
        assert forall|name: Seq<char>| live.contains(name) && !later.contains(name) implies name == feature@ by {
            let k = choose|k: int| 0 <= k < views(to_be_disabled@).len() && views(to_be_disabled@)[k] == name;
            if k < start.len() {
                assert(start[k] == name);
            }
        }
        assert forall|name: Seq<char>| later.contains(name) implies live.contains(name) by {
            if start.contains(name) {
                let k = choose|k: int| 0 <= k < start.len() && start[k] == name;
                assert(views(to_be_disabled@)[k] == name);
            }
        }
        assert(graph.stage_of_walk(walk, live, feature@, later));
        graph.lemma_live_places(live, later);
        if graph.contains(feature@) {
            let at = graph.index_of(feature@);
            assert(graph.name(at) == feature@);
        }
        assert forall|a: int, b: int| 0 <= a < views(to_be_disabled@).len() && 0 <= b < views(to_be_disabled@).len() && a != b && start.no_duplicates()
            implies views(to_be_disabled@)[a] != views(to_be_disabled@)[b] by {
            if a < start.len() {
                assert(start.contains(start[a]));
            }
            if b < start.len() {
                assert(start.contains(start[b]));
            }
        }
    }
    let count = dependency.features.len();
    let mut place: usize = 0;
    while place < count
        invariant
            graph == dependency.features@,
            graph.wf(),
            walk == Walk::Requiring,
            start == views(old(to_be_disabled)@),
            live == outside(start),
            count == graph.len(),
            place <= count,
            start.is_prefix_of(views(to_be_disabled@)),
            start.no_duplicates() ==> views(to_be_disabled@).no_duplicates(),
            graph.stage_of_walk(walk, live, feature@, outside(views(to_be_disabled@))),
            forall|j: int|
                0 <= j < place && (#[trigger] graph.feature(j)).lists(feature@) ==> views(
                    to_be_disabled@,
                ).contains(graph.name(j)),
            graph.live_places(outside(views(to_be_disabled@))).len() <= graph.live_places(live).len(),
            graph.contains(feature@) ==> graph.live_places(outside(views(to_be_disabled@))).len()
                < graph.live_places(live).len(),
        decreases count - place,
    {
        let ghost before = views(to_be_disabled@);
        let ghost later = outside(before);
        if dependency.features.lists_at(place, &feature) {
            let next = dependency.features.name_at(place).clone();
            proof {
                graph.lemma_index_of(place as int);
            }
            set_features_to_be_disabled(dependency, next, to_be_disabled);
            proof {
                let now = views(to_be_disabled@);
                let after = outside(now);
                assert(graph.leads(walk, feature@, next@));
                graph.lemma_stage_step(walk, live, feature@, later, next@, after);
                graph.lemma_live_places(later, after);
                assert forall|j: int|
                    0 <= j < place + 1 && (#[trigger] graph.feature(j)).lists(feature@) implies now.contains(
                    graph.name(j),
                ) by {
                    if j < place {
                        assert(before.contains(graph.name(j)));
                    }
                }
            }
        }
        place += 1;
    }
    proof {
        let end = outside(views(to_be_disabled@));
        assert forall|b: Seq<char>| #[trigger] graph.leads(walk, feature@, b) implies !end.contains(b) by {
            let j = graph.index_of(b);
            assert(graph.name(j) == b);
            assert(graph.feature(j).lists(feature@));
        }
        graph.lemma_walk_complete(walk, live, feature@, end);
        assert forall|name: Seq<char>|
            views(to_be_disabled@).contains(name) <==> start.contains(name) || graph.walks_to(
                walk,
                live,
                feature@,
                name,
            ) by {
            assert(end.contains(name) == !views(to_be_disabled@).contains(name));
            assert(live.contains(name) == !start.contains(name));
            if graph.walks_to(walk, live, feature@, name) {
                graph.lemma_walk_live(walk, live, feature@, name);
            }
        }
    }
}

/// The names that the walk from `from` does not come to within `live`.
pub open spec fn unwalked(
    graph: FeatureGraph,
    walk: Walk,
    live: Set<Seq<char>>,
    from: Seq<char>,
) -> Set<Seq<char>> {
    Set::new(|name: Seq<char>| !graph.walks_to(walk, live, from, name))
}

/// What is left of a list of features once `feature` has been taken out
/// with all that it lists, directly or through others, as far as the list
/// holds it.
pub open spec fn without_feature(
    graph: FeatureGraph,
    list: Seq<Seq<char>>,
    feature: Seq<char>,
) -> Seq<Seq<char>> {
    keep_names(list, unwalked(graph, Walk::Implied, inside(list), feature))
}

/// Takes `feature` out of `features`, and with it every name that it
/// lists, whatever the kind of the entry, directly or through other
/// features of `dependency`. A name that the list does not hold is not
/// followed.
pub fn remove_feature(feature: &String, features: &mut Vec<String>, dependency: &Dependency)
    ensures
        views(final(features)@) == without_feature(
            dependency.features@,
            views(old(features)@),
            feature@,
        ),
        final(features)@.len() <= old(features)@.len(),
    decreases old(features)@.len(),
{
    let ghost graph = dependency.features@;
    let ghost walk = Walk::Implied;
    let ghost start = views(features@);
    let ghost live = inside(start);
    if !remove_name(features, feature) {
        proof {
            graph.lemma_walk_idle(walk, live, feature@);
            lemma_keep_all(start, unwalked(graph, walk, live, feature@));
        }
        return ;
    }
    proof {
        lemma_keep_holds(start, all_but(feature@));
        graph.lemma_walk_start(walk, live, feature@);
        assert(graph.stage_of_walk(walk, live, feature@, inside(views(features@))));
        lemma_keep_agree(start, all_but(feature@), inside(views(features@)));
    }
    match dependency.features.position(feature) {
        None => {},
        Some(place) => {
            let data = dependency.features.data_at(place);
            let mut k: usize = 0;
            while k < data.sub_features.len()
                invariant
                    graph == dependency.features@,
                    graph.wf(),
                    walk == Walk::Implied,
                    start == views(old(features)@),
                    live == inside(start),
                    place < graph.len(),
                    place == graph.index_of(feature@),
                    graph.contains(feature@),
                    data@ == graph.feature(place as int),
                    k <= data.sub_features.len(),
                    features@.len() < old(features)@.len(),
                    graph.stage_of_walk(walk, live, feature@, inside(views(features@))),
                    views(features@) == keep_names(start, inside(views(features@))),
                    forall|c: int|
                        0 <= c < k ==> !views(features@).contains(
                            (#[trigger] graph.feature(place as int).sub_features[c]).name,
                        ),
                decreases data.sub_features.len() - k,
            {
                let ghost before = views(features@);
                let ghost later = inside(before);
                let next = &data.sub_features[k].name;
                assert(next@ == graph.feature(place as int).sub_features[k as int].name);
                remove_feature(next, features, dependency);
                proof {
                    let now = views(features@);
                    let after = inside(now);
                    let keeps = unwalked(graph, walk, later, next@);
                    lemma_keep_holds(before, keeps);
                    assert(graph.leads(walk, feature@, next@));
                    graph.lemma_stage_step(walk, live, feature@, later, next@, after);
                    lemma_keep_twice(start, later, keeps);
                    lemma_keep_agree(start, later.intersect(keeps), after);
                    assert forall|c: int| 0 <= c < k + 1 implies !now.contains(
                        (#[trigger] graph.feature(place as int).sub_features[c]).name,
                    ) by {
                        if c < k {
                            assert(!before.contains(graph.feature(place as int).sub_features[c].name));
                        }
                    }
                }
                k += 1;
            }
        },
    }
    proof {
        let end = inside(views(features@));
        assert forall|b: Seq<char>| #[trigger] graph.leads(walk, feature@, b) implies !end.contains(b) by {
            let place = graph.index_of(feature@);
            let c = choose|c: int|
                0 <= c < graph.feature(place).sub_features.len() && #[trigger] graph.feature(
                    place,
                ).sub_features[c].name == b;
            assert(!views(features@).contains(graph.feature(place).sub_features[c].name));
        }
        graph.lemma_walk_complete(walk, live, feature@, end);
        lemma_keep_agree(start, end, unwalked(graph, walk, live, feature@));
    }
}

/// A choice that takes everything keeps everything.
pub proof fn lemma_filter_all<A>(s: Seq<A>)
    ensures
        s.filter(|x: A| true) == s,
    decreases s.len(),
{
    reveal(Seq::filter);
    if s.len() > 0 {
        lemma_filter_all(s.drop_last());
        assert(s.drop_last().push(s.last()) =~= s);
    }
}

/// The names of `list` that `excluded` does not hold, in their order.
pub fn keep_outside(list: &Vec<String>, excluded: &Vec<String>) -> (kept: Vec<String>)
    ensures
        views(kept@) == keep_names(views(list@), outside(views(excluded@))),
{
    let ghost live = outside(views(excluded@));
    let ghost stays = |name: Seq<char>| live.contains(name);
    let ghost all = views(list@);
    let mut kept: Vec<String> = Vec::new();
    let mut i: usize = 0;
    proof {
        assert(all.take(0) =~= Seq::<Seq<char>>::empty());
        Seq::<Seq<char>>::empty().lemma_filter_len(stays);
        assert(views(kept@) =~= all.take(0).filter(stays));
    }
    while i < list.len()
        invariant
            i <= list.len(),
            all == views(list@),
            live == outside(views(excluded@)),
            stays == |name: Seq<char>| live.contains(name),
            views(kept@) == all.take(i as int).filter(stays),
        decreases list.len() - i,
    {
        let ghost seen = all.take(i as int);
        let ghost earlier = views(kept@);
        proof {
            assert(all.take(i + 1) =~= seen.push(all[i as int]));
            seen.lemma_filter_push(all[i as int], stays);
        }
        if !contains_name(excluded, &list[i]) {
            kept.push(list[i].clone());
            proof {
                assert(views(kept@) =~= earlier.push(all[i as int]));
            }
        }
        i += 1;
    }
    proof {
        assert(all.take(list@.len() as int) =~= all);
    }
    kept
}

/// Some name of `seeds` lists `name`, directly or through other features,
/// or is `name` itself.
pub open spec fn implied_by_any(graph: FeatureGraph, seeds: Seq<Seq<char>>, name: Seq<char>) -> bool {
    exists|k: int|
        0 <= k < seeds.len() && graph.walks_to(Walk::Implied, Set::full(), #[trigger] seeds[k], name)
}

/// With every name it holds, `list` holds the names that the walk leads
/// to from there.
pub open spec fn closed_under(graph: FeatureGraph, walk: Walk, list: Seq<Seq<char>>) -> bool {
    forall|a: Seq<char>, b: Seq<char>|
        list.contains(a) && #[trigger] graph.leads(walk, a, b) ==> list.contains(b)
}

/// A walk within a set is a walk within every larger set.
pub proof fn lemma_walk_wider(
    graph: FeatureGraph,
    walk: Walk,
    live: Set<Seq<char>>,
    wider: Set<Seq<char>>,
    from: Seq<char>,
    to: Seq<char>,
)
    requires
        live.subset_of(wider),
        graph.walks_to(walk, live, from, to),
    ensures
        graph.walks_to(walk, wider, from, to),
{
    let chain = choose|chain: Seq<Seq<char>>| #[trigger]
        graph.is_walk(walk, live, chain) && chain[0] == from && chain.last() == to;
    assert(graph.is_walk(walk, wider, chain));
}

proof fn lemma_closed_along(
    graph: FeatureGraph,
    walk: Walk,
    live: Set<Seq<char>>,
    list: Seq<Seq<char>>,
    skipped: Seq<Seq<char>>,
    chain: Seq<Seq<char>>,
    k: int,
)
    requires
        graph.is_walk(walk, live, chain),
        list.contains(chain[0]),
        forall|a: Seq<char>, b: Seq<char>|
            list.contains(a) && !skipped.contains(a) && #[trigger] graph.leads(walk, a, b)
                ==> list.contains(b),
        forall|name: Seq<char>| live.contains(name) ==> !skipped.contains(name),
        0 <= k < chain.len(),
    ensures
        list.contains(chain[k]),
    decreases k,
{
    if k > 0 {
        lemma_closed_along(graph, walk, live, list, skipped, chain, k - 1);
        assert(live.contains(chain[k - 1]));
        assert(graph.leads(walk, chain[k - 1], chain[k - 1 + 1]));
    }
}

/// Adding a name with what the walk comes to from it keeps a list closed
/// under the walk.
pub proof fn lemma_add_keeps_closed(
    graph: FeatureGraph,
    walk: Walk,
    before: Seq<Seq<char>>,
    feature: Seq<char>,
    after: Seq<Seq<char>>,
    skipped: Seq<Seq<char>>,
)
    requires
        forall|a: Seq<char>, b: Seq<char>|
            before.contains(a) && !skipped.contains(a) && #[trigger] graph.leads(walk, a, b)
                ==> before.contains(b),
        forall|name: Seq<char>|
            after.contains(name) <==> before.contains(name) || graph.walks_to(
                walk,
                outside(before),
                feature,
                name,
            ),
    ensures
        forall|a: Seq<char>, b: Seq<char>|
            after.contains(a) && !skipped.contains(a) && #[trigger] graph.leads(walk, a, b)
                ==> after.contains(b),
{
    assert forall|a: Seq<char>, b: Seq<char>|
        after.contains(a) && !skipped.contains(a) && #[trigger] graph.leads(
            walk,
            a,
            b,
        ) implies after.contains(b) by {
        if !before.contains(a) {
            if !before.contains(b) {
                graph.lemma_walk_next(walk, outside(before), feature, a, b);
            }
        }
    }
}

/// All the names of `names`, each with every name that it lists, whatever
/// the kind of the entry, directly or through other features of
/// `dependency`; no name twice.
pub fn collect_implied(dependency: &Dependency, names: &Vec<String>) -> (list: Vec<String>)
    ensures
        views(list@).no_duplicates(),
        forall|name: Seq<char>|
            views(list@).contains(name) <==> implied_by_any(
                dependency.features@,
                views(names@),
                name,
            ),
        closed_under(dependency.features@, Walk::Implied, views(list@)),
{
    let ghost graph = dependency.features@;
    let ghost walk = Walk::Implied;
    let mut list: Vec<String> = Vec::new();
    let mut k: usize = 0;
    proof {
        assert forall|name: Seq<char>| !implied_by_any(graph, views(names@).take(0), name) by {}
    }
    while k < names.len()
        invariant
            graph == dependency.features@,
            walk == Walk::Implied,
            k <= names.len(),
            views(list@).no_duplicates(),
            closed_under(graph, walk, views(list@)),
            forall|name: Seq<char>|
                views(list@).contains(name) <==> implied_by_any(
                    graph,
                    views(names@).take(k as int),
                    name,
                ),
        decreases names.len() - k,
    {
        let ghost before = views(list@);
        let ghost seeds = views(names@).take(k as int);
        let ghost more = views(names@).take(k + 1);
        set_features_to_be_kept(dependency, names[k].clone(), &mut list);
        proof {
            let after = views(list@);
            let seed = names@[k as int]@;
            assert(more[k as int] == seed);
            lemma_add_keeps_closed(graph, walk, before, seed, after, Seq::empty());
            assert(closed_under(graph, walk, after));
            assert(after.contains(seed)) by {
                if !before.contains(seed) {
                    graph.lemma_walk_start(walk, outside(before), seed);
                }
            }
            assert forall|name: Seq<char>| after.contains(name) <==> implied_by_any(
                graph,
                more,
                name,
            ) by {
                if after.contains(name) {
                    if before.contains(name) {
                        let j = choose|j: int|
                            0 <= j < seeds.len() && graph.walks_to(
                                walk,
                                Set::full(),
                                #[trigger] seeds[j],
                                name,
                            );
                        assert(more[j] == seeds[j]);
                    } else {
                        lemma_walk_wider(graph, walk, outside(before), Set::full(), seed, name);
                    }
                }
                if implied_by_any(graph, more, name) {
                    let j = choose|j: int|
                        0 <= j < more.len() && graph.walks_to(walk, Set::full(), #[trigger] more[j], name);
                    if j < k {
                        assert(seeds[j] == more[j]);
                        assert(implied_by_any(graph, seeds, name));
                    } else {
                        let chain = choose|chain: Seq<Seq<char>>| #[trigger]
                            graph.is_walk(walk, Set::full(), chain) && chain[0] == seed && chain.last()
                                == name;
                        lemma_closed_along(
                            graph,
                            walk,
                            Set::full(),
                            after,
                            Seq::empty(),
                            chain,
                            chain.len() - 1,
                        );
                    }
                }
            }
        }
        k += 1;
    }
    proof {
        assert(views(names@).take(names@.len() as int) =~= views(names@));
    }
    list
}

/// A feature that is found needless takes with it every feature that
/// requires it, directly or through others: where a list of needless
/// features holds, with each of its features outside `known`, the
/// features that require it, it holds every feature that requires one of
/// its features through features outside `known`; and such a feature
/// stays in the list when the features of `known` are taken out.
pub proof fn lemma_requiring_features_follow(
    graph: FeatureGraph,
    known: Seq<Seq<char>>,
    list: Seq<Seq<char>>,
    found: Seq<char>,
    requiring: Seq<char>,
)
    requires
        forall|a: Seq<char>, b: Seq<char>|
            list.contains(a) && !known.contains(a) && #[trigger] graph.leads(Walk::Requiring, a, b)
                ==> list.contains(b),
        list.contains(found),
        graph.walks_to(Walk::Requiring, outside(known), found, requiring),
    ensures
        list.contains(requiring),
        keep_names(list, outside(known)).contains(requiring),
{
    let chain = choose|chain: Seq<Seq<char>>| #[trigger]
        graph.is_walk(Walk::Requiring, outside(known), chain) && chain[0] == found && chain.last()
            == requiring;
    lemma_closed_along(
        graph,
        Walk::Requiring,
        outside(known),
        list,
        known,
        chain,
        chain.len() - 1,
    );
    graph.lemma_walk_live(Walk::Requiring, outside(known), found, requiring);
    lemma_keep_holds(list, outside(known));
}

} // verus!
