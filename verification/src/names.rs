//! Lists of names: what they hold, and their order.

use vstd::prelude::*;
use vstd::seq_lib::{to_multiset_contains, to_multiset_len};
use itertools::Itertools;

verus! {

/// The names that a list of strings holds.
pub open spec fn views(names: Seq<String>) -> Seq<Seq<char>> {
    names.map_values(|name: String| name@)
}

/// The order of names: character by character, by code point, a name
/// before each of its extensions.
pub open spec fn name_le(a: Seq<char>, b: Seq<char>) -> bool
    decreases a.len(),
{
    if a.len() == 0 {
        true
    } else if b.len() == 0 {
        false
    } else if a[0] != b[0] {
        (a[0] as u32) < (b[0] as u32)
    } else {
        name_le(a.skip(1), b.skip(1))
    }
}

/// Each name stands before the names that follow it.
pub open spec fn ordered(names: Seq<Seq<char>>) -> bool {
    forall|i: int, j: int| 0 <= i < j < names.len() ==> name_le(names[i], names[j])
}

/// `sorted` holds the names of `names`, none of them twice, in order.
pub open spec fn is_sorting(sorted: Seq<Seq<char>>, names: Seq<Seq<char>>) -> bool {
    &&& ordered(sorted)
    &&& sorted.no_duplicates()
    &&& sorted.len() == names.len()
    &&& forall|name: Seq<char>| sorted.contains(name) <==> names.contains(name)
}

/// The names of `names` in order, where `names` holds no name twice.
pub open spec fn sorted_names(names: Seq<Seq<char>>) -> Seq<Seq<char>> {
    choose|sorted: Seq<Seq<char>>| is_sorting(sorted, names)
}

/// Of two different names one stands before the other, not both.
pub proof fn lemma_name_le_antisymmetric(a: Seq<char>, b: Seq<char>)
    requires
        name_le(a, b),
        name_le(b, a),
    ensures
        a == b,
    decreases a.len(),
{
    if a.len() == 0 || b.len() == 0 {
        assert(a =~= b);
    } else {
        assert(a[0] == b[0]);
        lemma_name_le_antisymmetric(a.skip(1), b.skip(1));
        assert(a =~= seq![a[0]] + a.skip(1));
        assert(b =~= seq![b[0]] + b.skip(1));
    }
}

/// Two lists in order that hold the same names, none of them twice, are
/// the same list.
pub proof fn lemma_sorting_unique(s: Seq<Seq<char>>, t: Seq<Seq<char>>)
    requires
        ordered(s),
        ordered(t),
        s.no_duplicates(),
        t.no_duplicates(),
        s.len() == t.len(),
        forall|name: Seq<char>| s.contains(name) <==> t.contains(name),
    ensures
        s == t,
    decreases s.len(),
{
    if s.len() == 0 {
        assert(s =~= t);
    } else {
        assert(s.contains(s[0]));
        assert(t.contains(t[0]));
        let k = choose|k: int| 0 <= k < t.len() && t[k] == s[0];
        let m = choose|m: int| 0 <= m < s.len() && s[m] == t[0];
        assert(name_le(t[0], s[0])) by {
            if k > 0 {
                assert(name_le(t[0], t[k]));
            } else {
                lemma_name_le_reflexive(s[0]);
            }
        }
        assert(name_le(s[0], t[0])) by {
            if m > 0 {
                assert(name_le(s[0], s[m]));
            } else {
                lemma_name_le_reflexive(t[0]);
            }
        }
        lemma_name_le_antisymmetric(s[0], t[0]);
        let s1 = s.drop_first();
        let t1 = t.drop_first();
        assert forall|name: Seq<char>| s1.contains(name) <==> t1.contains(name) by {
            if s1.contains(name) {
                let i = choose|i: int| 0 <= i < s1.len() && s1[i] == name;
                assert(s[i + 1] == name);
                assert(s.contains(name));
                let j = choose|j: int| 0 <= j < t.len() && t[j] == name;
                assert(j != 0);
                assert(t1[j - 1] == name);
            }
            if t1.contains(name) {
                let i = choose|i: int| 0 <= i < t1.len() && t1[i] == name;
                assert(t[i + 1] == name);
                assert(t.contains(name));
                let j = choose|j: int| 0 <= j < s.len() && s[j] == name;
                assert(j != 0);
                assert(s1[j - 1] == name);
            }
        }
        assert forall|i: int, j: int| 0 <= i < j < s1.len() implies name_le(s1[i], s1[j]) by {
            assert(name_le(s[i + 1], s[j + 1]));
        }
        assert forall|i: int, j: int| 0 <= i < j < t1.len() implies name_le(t1[i], t1[j]) by {
            assert(name_le(t[i + 1], t[j + 1]));
        }
        lemma_sorting_unique(s1, t1);
        assert(s =~= seq![s[0]] + s1);
        assert(t =~= seq![t[0]] + t1);
    }
}

/// Every name stands before itself.
pub proof fn lemma_name_le_reflexive(a: Seq<char>)
    ensures
        name_le(a, a),
    decreases a.len(),
{
    if a.len() > 0 {
        lemma_name_le_reflexive(a.skip(1));
    }
}

/// What a key to sort by stands for: a number, a name and a place.
pub open spec fn key_of(key: (i128, String, usize)) -> (int, Seq<char>, int) {
    (key.0 as int, key.1@, key.2 as int)
}

/// What the keys of a list stand for.
pub open spec fn keys_of(keys: Seq<(i128, String, usize)>) -> Seq<(int, Seq<char>, int)> {
    keys.map_values(|key: (i128, String, usize)| key_of(key))
}

/// The order of keys: by number, then by name, then by place.
pub open spec fn key_le(a: (int, Seq<char>, int), b: (int, Seq<char>, int)) -> bool {
    a.0 < b.0 || (a.0 == b.0 && (if a.1 == b.1 {
        a.2 <= b.2
    } else {
        name_le(a.1, b.1)
    }))
}

/// Each key stands before the keys that follow it.
pub open spec fn keys_ordered(keys: Seq<(int, Seq<char>, int)>) -> bool {
    forall|i: int, j: int| 0 <= i < j < keys.len() ==> key_le(keys[i], keys[j])
}

/// `Itertools::sorted` on a list of keys: the same keys, each as often as
/// before, in ascending order. Keys compare part by part, numbers by their
/// size and strings by their bytes, which orders them by code point.
#[verifier::external_body]
fn sorted_keys(keys: Vec<(i128, String, usize)>) -> (sorted: Vec<(i128, String, usize)>)
    ensures
        keys_of(sorted@).to_multiset() == keys_of(keys@).to_multiset(),
        keys_ordered(keys_of(sorted@)),
{
    keys.into_iter().sorted().collect()
}

/// The keys of `keys` in ascending order.
pub fn sort_keys(keys: Vec<(i128, String, usize)>) -> (sorted: Vec<(i128, String, usize)>)
    ensures
        keys_ordered(keys_of(sorted@)),
        sorted@.len() == keys@.len(),
        forall|key: (int, Seq<char>, int)|
            keys_of(sorted@).contains(key) <==> keys_of(keys@).contains(key),
        keys_of(keys@).no_duplicates() ==> keys_of(sorted@).no_duplicates(),
{
    let ghost before = keys_of(keys@);
    let sorted = sorted_keys(keys);
    proof {
        let after = keys_of(sorted@);
        to_multiset_len(before);
        to_multiset_len(after);
        assert forall|key: (int, Seq<char>, int)| after.contains(key) <==> before.contains(key) by {
            to_multiset_contains(before, key);
            to_multiset_contains(after, key);
        }
        if before.no_duplicates() {
            before.lemma_multiset_has_no_duplicates();
            after.lemma_multiset_has_no_duplicates_conv();
        }
    }
    sorted
}

/// The names of `names` in ascending order.
pub fn sort_names(names: Vec<String>) -> (sorted: Vec<String>)
    ensures
        ordered(views(sorted@)),
        sorted@.len() == names@.len(),
        forall|name: Seq<char>| views(sorted@).contains(name) <==> views(names@).contains(name),
        views(names@).no_duplicates() ==> views(sorted@).no_duplicates(),
        views(names@).no_duplicates() ==> views(sorted@) == sorted_names(views(names@)),
{
    let ghost before = views(names@);
    let mut keys: Vec<(i128, String, usize)> = Vec::new();
    let mut i: usize = 0;
    while i < names.len()
        invariant
            i <= names.len(),
            before == views(names@),
            keys@.len() == i,
            forall|k: int| 0 <= k < i ==> #[trigger] keys_of(keys@)[k] == (0int, before[k], 0int),
        decreases names.len() - i,
    {
        let ghost earlier = keys@;
        keys.push((0, names[i].clone(), 0));
        proof {
            assert forall|k: int| 0 <= k < i + 1 implies #[trigger] keys_of(keys@)[k] == (
                0int,
                before[k],
                0int,
            ) by {
                if k < i {
                    assert(keys@[k] == earlier[k]);
                    assert(keys_of(earlier)[k] == (0int, before[k], 0int));
                }
            }
        }
        i += 1;
    }
    let ghost unsorted = keys_of(keys@);
    let ordered_keys = sort_keys(keys);
    let ghost after_keys = keys_of(ordered_keys@);
    proof {
        assert forall|k: int| 0 <= k < after_keys.len() implies (#[trigger] after_keys[k]).0 == 0
            && after_keys[k].2 == 0 && before.contains(after_keys[k].1) by {
            assert(after_keys.contains(after_keys[k]));
            let at = choose|at: int| 0 <= at < unsorted.len() && unsorted[at] == after_keys[k];
            assert(before[at] == after_keys[k].1);
        }
    }
    let mut sorted: Vec<String> = Vec::new();
    let mut j: usize = 0;
    while j < ordered_keys.len()
        invariant
            j <= ordered_keys.len(),
            after_keys == keys_of(ordered_keys@),
            sorted@.len() == j,
            forall|k: int| 0 <= k < j ==> #[trigger] views(sorted@)[k] == after_keys[k].1,
        decreases ordered_keys.len() - j,
    {
        let ghost earlier = sorted@;
        sorted.push(ordered_keys[j].1.clone());
        proof {
            assert forall|k: int| 0 <= k < j + 1 implies #[trigger] views(sorted@)[k]
                == after_keys[k].1 by {
                if k < j {
                    assert(sorted@[k] == earlier[k]);
                    assert(views(earlier)[k] == after_keys[k].1);
                }
            }
        }
        j += 1;
    }
    proof {
        let after = views(sorted@);
        assert forall|a: int, b: int| 0 <= a < b < after.len() implies name_le(after[a], after[b]) by {
            assert(key_le(after_keys[a], after_keys[b]));
            lemma_name_le_reflexive(after[a]);
        }
        assert forall|name: Seq<char>| after.contains(name) <==> before.contains(name) by {
            if after.contains(name) {
                let k = choose|k: int| 0 <= k < after.len() && after[k] == name;
                assert(before.contains(after_keys[k].1));
            }
            if before.contains(name) {
                let at = choose|at: int| 0 <= at < before.len() && before[at] == name;
                assert(unsorted[at] == (0int, name, 0int));
                assert(unsorted.contains((0int, name, 0int)));
                assert(after_keys.contains((0int, name, 0int)));
                let k = choose|k: int| 0 <= k < after_keys.len() && after_keys[k] == (0int, name, 0int);
                assert(after[k] == name);
            }
        }
        if before.no_duplicates() {
            assert forall|a: int, b: int|
                0 <= a < unsorted.len() && 0 <= b < unsorted.len() && a != b implies unsorted[a]
                != unsorted[b] by {
                assert(before[a] != before[b]);
            }
            assert forall|a: int, b: int|
                0 <= a < after.len() && 0 <= b < after.len() && a != b implies after[a] != after[b] by {
                assert(after_keys[a] != after_keys[b]);
                assert(after_keys[a].0 == 0 && after_keys[b].0 == 0);
            }
            assert(is_sorting(after, before));
            let chosen = sorted_names(before);
            lemma_sorting_unique(after, chosen);
        }
    }
    sorted
}

/// The place `a` stands before the place `b` when the places are ranked
/// by their scores, the highest first, and places of one score in their
/// order.
pub open spec fn ranks_before(scores: Seq<Option<i64>>, a: int, b: int) -> bool {
    scores[a].unwrap() > scores[b].unwrap() || (scores[a].unwrap() == scores[b].unwrap() && a < b)
}

/// The places that have a score, ranked by their scores, the highest
/// first, and places of one score in their order.
pub fn rank(scores: &Vec<Option<i64>>) -> (places: Vec<usize>)
    ensures
        places@.no_duplicates(),
        forall|place: usize|
            places@.contains(place) <==> place < scores@.len() && scores@[place as int] is Some,
        forall|a: int, b: int|
            0 <= a < b < places@.len() ==> ranks_before(scores@, places@[a] as int, places@[b] as int),
{
    let mut keys: Vec<(i128, String, usize)> = Vec::new();
    let mut i: usize = 0;
    while i < scores.len()
        invariant
            i <= scores.len(),
            forall|k: int|
                0 <= k < keys@.len() ==> {
                    &&& 0 <= (#[trigger] keys_of(keys@)[k]).2 < i
                    &&& scores@[keys_of(keys@)[k].2] is Some
                    &&& keys_of(keys@)[k].0 == -(scores@[keys_of(keys@)[k].2].unwrap() as int)
                    &&& keys_of(keys@)[k].1 == Seq::<char>::empty()
                },
            forall|place: int|
                0 <= place < i && scores@[place] is Some ==> exists|k: int|
                    0 <= k < keys@.len() && (#[trigger] keys_of(keys@)[k]).2 == place,
            forall|a: int, b: int|
                0 <= a < keys@.len() && 0 <= b < keys@.len() && a != b ==> keys_of(keys@)[a].2
                    != keys_of(keys@)[b].2,
        decreases scores.len() - i,
    {
        let ghost earlier = keys_of(keys@);
        match scores[i] {
            Some(score) => {
                keys.push((-(score as i128), String::new(), i));
                proof {
                    let later = keys_of(keys@);
                    assert forall|k: int| 0 <= k < later.len() - 1 implies later[k] == earlier[k] by {}
                    assert forall|place: int| 0 <= place < i + 1 && scores@[place] is Some implies exists|
                        k: int,
                    | 0 <= k < later.len() && (#[trigger] later[k]).2 == place by {
                        if place < i {
                            let k = choose|k: int| 0 <= k < earlier.len() && (#[trigger] earlier[k]).2 == place;
                            assert(later[k].2 == place);
                        } else {
                            assert(later[later.len() - 1].2 == place);
                        }
                    }
                }
            },
            None => {},
        }
        i += 1;
    }
    let ghost unsorted = keys_of(keys@);
    proof {
        assert forall|a: int, b: int|
            0 <= a < unsorted.len() && 0 <= b < unsorted.len() && a != b implies unsorted[a]
            != unsorted[b] by {
            assert(unsorted[a].2 != unsorted[b].2);
        }
    }
    let ordered_keys = sort_keys(keys);
    let ghost after_keys = keys_of(ordered_keys@);
    proof {
        assert forall|k: int| 0 <= k < after_keys.len() implies {
            &&& 0 <= (#[trigger] after_keys[k]).2 < scores@.len()
            &&& scores@[after_keys[k].2] is Some
            &&& after_keys[k].0 == -(scores@[after_keys[k].2].unwrap() as int)
            &&& after_keys[k].1 == Seq::<char>::empty()
        } by {
            assert(after_keys.contains(after_keys[k]));
            let at = choose|at: int| 0 <= at < unsorted.len() && unsorted[at] == after_keys[k];
            assert(unsorted[at].2 == after_keys[k].2);
        }
    }
    let mut places: Vec<usize> = Vec::new();
    let mut j: usize = 0;
    while j < ordered_keys.len()
        invariant
            j <= ordered_keys.len(),
            after_keys == keys_of(ordered_keys@),
            places@.len() == j,
            forall|k: int| 0 <= k < j ==> #[trigger] places@[k] == after_keys[k].2,
        decreases ordered_keys.len() - j,
    {
        places.push(ordered_keys[j].2);
        j += 1;
    }
    proof {
        assert forall|a: int, b: int|
            0 <= a < places@.len() && 0 <= b < places@.len() && a != b implies places@[a] != places@[b] by {
            assert(after_keys[a] != after_keys[b]);
            assert(after_keys[a].2 == places@[a] && after_keys[b].2 == places@[b]);
        }
        assert forall|place: usize|
            places@.contains(place) <==> place < scores@.len() && scores@[place as int] is Some by {
            if places@.contains(place) {
                let k = choose|k: int| 0 <= k < places@.len() && places@[k] == place;
                assert(after_keys[k].2 == place);
            }
            if place < scores@.len() && scores@[place as int] is Some {
                let at = choose|at: int| 0 <= at < unsorted.len() && (#[trigger] unsorted[at]).2 == place;
                assert(unsorted.contains(unsorted[at]));
                assert(after_keys.contains(unsorted[at]));
                let k = choose|k: int| 0 <= k < after_keys.len() && after_keys[k] == unsorted[at];
                assert(places@[k] == place);
            }
        }
        assert forall|a: int, b: int| 0 <= a < b < places@.len() implies ranks_before(
            scores@,
            places@[a] as int,
            places@[b] as int,
        ) by {
            assert(key_le(after_keys[a], after_keys[b]));
            assert(after_keys[a].2 == places@[a] && after_keys[b].2 == places@[b]);
            assert(after_keys[a] != after_keys[b]);
        }
    }
    places
}

/// The place `a` stands before the place `b` when the places are put in
/// the order of their names, and places of one name in their order.
pub open spec fn stands_before(names: Seq<Seq<char>>, a: int, b: int) -> bool {
    if names[a] == names[b] {
        a < b
    } else {
        name_le(names[a], names[b])
    }
}

/// The places of `names` in the order of the names, places of one name in
/// their order.
pub fn order_by_name(names: &Vec<String>) -> (places: Vec<usize>)
    ensures
        places@.len() == names@.len(),
        places@.no_duplicates(),
        forall|place: usize| places@.contains(place) <==> place < names@.len(),
        forall|a: int, b: int|
            0 <= a < b < places@.len() ==> stands_before(
                views(names@),
                places@[a] as int,
                places@[b] as int,
            ),
{
    let ghost all = views(names@);
    let mut keys: Vec<(i128, String, usize)> = Vec::new();
    let mut i: usize = 0;
    while i < names.len()
        invariant
            i <= names.len(),
            all == views(names@),
            keys@.len() == i,
            forall|k: int| 0 <= k < i ==> #[trigger] keys_of(keys@)[k] == (0int, all[k], k),
        decreases names.len() - i,
    {
        let ghost earlier = keys@;
        keys.push((0, names[i].clone(), i));
        proof {
            assert forall|k: int| 0 <= k < i + 1 implies #[trigger] keys_of(keys@)[k] == (
                0int,
                all[k],
                k,
            ) by {
                if k < i {
                    assert(keys@[k] == earlier[k]);
                    assert(keys_of(earlier)[k] == (0int, all[k], k));
                }
            }
        }
        i += 1;
    }
    let ghost unsorted = keys_of(keys@);
    proof {
        assert forall|a: int, b: int|
            0 <= a < unsorted.len() && 0 <= b < unsorted.len() && a != b implies unsorted[a]
            != unsorted[b] by {
            assert(unsorted[a].2 == a && unsorted[b].2 == b);
        }
    }
    let ordered_keys = sort_keys(keys);
    let ghost after_keys = keys_of(ordered_keys@);
    proof {
        assert forall|k: int| 0 <= k < after_keys.len() implies {
            &&& 0 <= (#[trigger] after_keys[k]).2 < all.len()
            &&& after_keys[k] == (0int, all[after_keys[k].2], after_keys[k].2)
        } by {
            assert(after_keys.contains(after_keys[k]));
            let at = choose|at: int| 0 <= at < unsorted.len() && unsorted[at] == after_keys[k];
            assert(unsorted[at] == (0int, all[at], at));
        }
    }
    let mut places: Vec<usize> = Vec::new();
    let mut j: usize = 0;
    while j < ordered_keys.len()
        invariant
            j <= ordered_keys.len(),
            after_keys == keys_of(ordered_keys@),
            places@.len() == j,
            forall|k: int| 0 <= k < j ==> #[trigger] places@[k] == after_keys[k].2,
        decreases ordered_keys.len() - j,
    {
        places.push(ordered_keys[j].2);
        j += 1;
    }
    proof {
        assert forall|a: int, b: int|
            0 <= a < places@.len() && 0 <= b < places@.len() && a != b implies places@[a] != places@[b] by {
            assert(after_keys[a] != after_keys[b]);
            assert(after_keys[a].2 == places@[a] && after_keys[b].2 == places@[b]);
        }
        assert forall|place: usize| places@.contains(place) <==> place < names@.len() by {
            if places@.contains(place) {
                let k = choose|k: int| 0 <= k < places@.len() && places@[k] == place;
                assert(after_keys[k].2 == place);
            }
            if place < names@.len() {
                assert(unsorted[place as int] == (0int, all[place as int], place as int));
                assert(unsorted.contains(unsorted[place as int]));
                assert(after_keys.contains(unsorted[place as int]));
                let k = choose|k: int| 0 <= k < after_keys.len() && after_keys[k] == unsorted[place as int];
                assert(places@[k] == place);
            }
        }
        assert forall|a: int, b: int| 0 <= a < b < places@.len() implies stands_before(
            all,
            places@[a] as int,
            places@[b] as int,
        ) by {
            assert(key_le(after_keys[a], after_keys[b]));
            assert(after_keys[a].2 == places@[a] && after_keys[b].2 == places@[b]);
            assert(after_keys[a] != after_keys[b]);
        }
    }
    places
}

/// Whether `names` holds `name`.
pub fn contains_name(names: &Vec<String>, name: &String) -> (found: bool)
    ensures
        found == views(names@).contains(name@),
{
    let mut i: usize = 0;
    while i < names.len()
        invariant
            i <= names.len(),
            forall|k: int| 0 <= k < i ==> views(names@)[k] != name@,
        decreases names.len() - i,
    {
        if names[i] == *name {
            assert(views(names@)[i as int] == name@);
            return true;
        }
        i += 1;
    }
    false
}

} // verus!
