//! The items shown for selection, each with the name it stands for and
//! the text it is shown as.

use vstd::prelude::*;
use vstd::string::{StrSliceExecFns, StringExecFns};
use fuzzy_matcher::skim::SkimMatcherV2;
use crate::dependency::Dependency;
use crate::document::Document;
use crate::error::Error;
use crate::graph::FeatureEntry;
use crate::markers::{char_text, in_color, in_red, NameMarkers};
use crate::names::{order_by_name, rank, ranks_before, sort_names, sorted_names, stands_before, views};
use crate::package::Package;
use crate::selector::{shifted, shifted_index};

verus! {

/// The pieces one after the other.
pub open spec fn joined(pieces: Seq<Seq<char>>) -> Seq<char>
    decreases pieces.len(),
{
    if pieces.len() == 0 {
        Seq::empty()
    } else {
        joined(pieces.drop_last()) + pieces.last()
    }
}

/// Whether `places` holds `place`.
pub fn holds_place(places: &Vec<usize>, place: usize) -> (found: bool)
    ensures
        found == places@.contains(place),
{
    let mut i: usize = 0;
    while i < places.len()
        invariant
            i <= places.len(),
            forall|k: int| 0 <= k < i ==> places@[k] != place,
        decreases places.len() - i,
    {
        if places[i] == place {
            return true;
        }
        i += 1;
    }
    false
}

/// The text with the letters at the places of `highlighted_letters` set
/// off in colour, on the dark palette if `is_dark` is set: a piece for
/// each letter, one after the other. On the light palette a letter that is
/// not set off stands for itself.
pub fn highlight_search(text: &str, highlighted_letters: &Vec<usize>, is_dark: bool) -> (shown: String)
    ensures
        exists|pieces: Seq<Seq<char>>|
            {
                &&& shown@ == #[trigger] joined(pieces)
                &&& pieces.len() == text@.len()
                &&& forall|i: int|
                    0 <= i < pieces.len() && !is_dark && !highlighted_letters@.contains(i as usize)
                        ==> #[trigger] pieces[i] == seq![text@[i]]
            },
        !is_dark && highlighted_letters@.len() == 0 ==> shown@ == text@,
{
    let len = text.unicode_len();
    let mut shown = String::new();
    let ghost mut pieces: Seq<Seq<char>> = Seq::empty();
    let mut i: usize = 0;
    while i < len
        invariant
            len == text@.len(),
            i <= len,
            shown@ == joined(pieces),
            pieces.len() == i,
            forall|k: int|
                0 <= k < i && !is_dark && !highlighted_letters@.contains(k as usize) ==> #[trigger] pieces[k]
                    == seq![text@[k]],
            !is_dark && highlighted_letters@.len() == 0 ==> shown@ == text@.take(i as int),
        decreases len - i,
    {
        let c = text.get_char(i);
        let letter = char_text(c);
        let piece = match (is_dark, holds_place(highlighted_letters, i)) {
            (false, true) => in_red(letter.as_str()),
            (false, false) => letter,
            (true, true) => in_color(letter.as_str(), 1),
            (true, false) => in_color(letter.as_str(), 8),
        };
        shown.append(piece.as_str());
        proof {
            let longer = pieces.push(piece@);
            assert(longer.drop_last() =~= pieces);
            assert(longer.last() == piece@);
            if !is_dark && highlighted_letters@.len() == 0 {
                assert(!highlighted_letters@.contains(i));
                assert(text@.take(i + 1) =~= text@.take(i as int) + seq![text@[i as int]]);
            }
            pieces = longer;
        }
        i += 1;
    }
    proof {
        assert(text@.take(len as int) =~= text@);
    }
    shown
}

/// One item of a list to select from.
#[derive(Debug)]
pub struct FilterViewItem {
    name: String,
    display_name: String,
}

impl FilterViewItem {
    /// The name that the item stands for.
    pub closed spec fn spec_name(&self) -> Seq<char> {
        self.name@
    }

    /// The text that the item is shown as.
    pub closed spec fn spec_display_name(&self) -> Seq<char> {
        self.display_name@
    }

    /// The item for a package; a package without dependencies is shown on
    /// the dark palette.
    pub fn from_package(dep: &Package, highlighted_letters: Vec<usize>) -> (item: FilterViewItem)
        ensures
            item.spec_name() == dep.name@,
            dep.dependencies@.len() > 0 && highlighted_letters@.len() == 0 ==> item.spec_display_name()
                == dep.name@,
    {
        FilterViewItem {
            name: dep.name.clone(),
            display_name: highlight_search(
                dep.name.as_str(),
                &highlighted_letters,
                dep.dependencies.len() == 0,
            ),
        }
    }

    /// The item for a dependency, under the name it is shown as with the
    /// marks for the terminal at hand; a dependency without features is
    /// shown on the dark palette. The name that the dependency stands for
    /// and its comment follow in brackets.
    pub fn from_dependency(dep: &Dependency, highlighted_letters: Vec<usize>) -> (item: FilterViewItem)
        ensures
            exists|markers: NameMarkers| item.spec_name() == #[trigger] dep.spec_name(markers),
    {
        let markers = NameMarkers::for_terminal();
        FilterViewItem::from_dependency_with(dep, highlighted_letters, &markers)
    }

    /// The item for a dependency, under the name it is shown as with the
    /// given marks.
    pub fn from_dependency_with(
        dep: &Dependency,
        highlighted_letters: Vec<usize>,
        markers: &NameMarkers,
    ) -> (item: FilterViewItem)
        ensures
            item.spec_name() == dep.spec_name(*markers),
    {
        let name = dep.name_with(markers);
        let mut display_name = highlight_search(name.as_str(), &highlighted_letters, !dep.has_features());
        match &dep.rename {
            Some(rename) => {
                let mut bracketed = " (".to_owned();
                bracketed.append(rename.as_str());
                bracketed.append(")");
                display_name.append(in_color(bracketed.as_str(), 8).as_str());
            },
            None => {},
        }
        match &dep.comment {
            Some(comment) => {
                let mut bracketed = " (".to_owned();
                bracketed.append(comment.as_str());
                bracketed.append(")");
                display_name.append(in_color(bracketed.as_str(), 8).as_str());
            },
            None => {},
        }
        FilterViewItem { name, display_name }
    }

    /// The item for a feature.
    pub fn from_feature(name: &str, highlighted_letters: Vec<usize>) -> (item: FilterViewItem)
        ensures
            item.spec_name() == name@,
            highlighted_letters@.len() == 0 ==> item.spec_display_name() == name@,
    {
        FilterViewItem {
            name: name.to_owned(),
            display_name: highlight_search(name, &highlighted_letters, false),
        }
    }

    pub fn name(&self) -> (name: &str)
        ensures
            name@ == self.spec_name(),
    {
        self.name.as_str()
    }

    pub fn display_name(&self) -> (name: &str)
        ensures
            name@ == self.spec_display_name(),
    {
        self.display_name.as_str()
    }
}

/// Items of which one is selected.
#[derive(Debug)]
pub struct FilterView {
    pub selected_index: usize,
    pub data: Vec<FilterViewItem>,
}

impl FilterView {
    /// Moves the selection by `shift` items, going round at both ends.
    pub fn shift(&mut self, shift: isize)
        ensures
            final(self).data == old(self).data,
            final(self).selected_index == shifted(
                old(self).selected_index as int,
                shift as int,
                old(self).data@.len() as int,
            ),
    {
        self.selected_index = shifted_index(self.selected_index, shift, self.data.len());
    }

    pub fn get_selected(&self) -> (selected: Result<&FilterViewItem, Error>)
        ensures
            match selected {
                Ok(item) => self.selected_index < self.data@.len() && *item
                    == self.data@[self.selected_index as int],
                Err(Error::NothingSelected) => self.selected_index >= self.data@.len(),
                Err(_) => false,
            },
    {
        if self.selected_index < self.data.len() {
            Ok(&self.data[self.selected_index])
        } else {
            Err(Error::NothingSelected)
        }
    }

    pub fn has_data(&self) -> (any: bool)
        ensures
            any == (self.data@.len() > 0),
    {
        self.data.len() > 0
    }
}

/// What the fuzzy matcher makes of a choice and a pattern: nothing where
/// the choice does not match, else a score, the higher the better the
/// match, and the places of the matching letters of the choice.
pub uninterp spec fn fuzzy_match(choice: Seq<char>, pattern: Seq<char>) -> Option<(i64, Seq<usize>)>;

/// `SkimMatcherV2::fuzzy` with the matcher's default settings, asked for
/// the places of the matching letters.
#[verifier::external_body]
fn fuzzy(choice: &str, pattern: &str) -> (found: Option<(i64, Vec<usize>)>)
    ensures
        match found {
            Some((score, places)) => fuzzy_match(choice@, pattern@) == Some((score, places@)),
            None => fuzzy_match(choice@, pattern@) is None,
        },
{
    SkimMatcherV2::default().fuzzy(choice, pattern, true)
}

/// The score of each of `names` against `filter`, where it matches.
pub open spec fn scores_of(names: Seq<Seq<char>>, filter: Seq<char>) -> Seq<Option<i64>> {
    Seq::new(
        names.len(),
        |i: int|
            match fuzzy_match(names[i], filter) {
                Some((score, _)) => Some(score),
                None => None,
            },
    )
}

/// `places` holds the places that have a score, each once, the highest
/// score first, and places of one score in their order.
pub open spec fn is_ranking(places: Seq<usize>, scores: Seq<Option<i64>>) -> bool {
    &&& places.no_duplicates()
    &&& forall|place: usize| places.contains(place) <==> place < scores.len() && scores[place as int] is Some
    &&& forall|a: int, b: int|
        0 <= a < b < places.len() ==> ranks_before(scores, places[a] as int, places[b] as int)
}

/// `places` holds every place of `names` once, in the order of the names,
/// and places of one name in their order.
pub open spec fn is_name_order(places: Seq<usize>, names: Seq<Seq<char>>) -> bool {
    &&& places.len() == names.len()
    &&& places.no_duplicates()
    &&& forall|place: usize| places.contains(place) <==> place < names.len()
    &&& forall|a: int, b: int|
        0 <= a < b < places.len() ==> stands_before(names, places[a] as int, places[b] as int)
}

/// The places of the names that match `filter`, the best match first, and
/// for each of them the places of its matching letters.
pub fn matching_places(names: &Vec<String>, filter: &str) -> (found: (Vec<usize>, Vec<Vec<usize>>))
    ensures
        is_ranking(found.0@, scores_of(views(names@), filter@)),
        found.1@.len() == found.0@.len(),
        forall|k: int|
            0 <= k < found.0@.len() ==> match fuzzy_match(
                views(names@)[(#[trigger] found.0@[k]) as int],
                filter@,
            ) {
                Some((_, letters)) => found.1@[k]@ == letters,
                None => false,
            },
{
    let ghost all = views(names@);
    let mut scores: Vec<Option<i64>> = Vec::new();
    let mut letters: Vec<Vec<usize>> = Vec::new();
    let mut i: usize = 0;
    while i < names.len()
        invariant
            i <= names.len(),
            all == views(names@),
            scores@.len() == i,
            letters@.len() == i,
            forall|k: int| 0 <= k < i ==> #[trigger] scores@[k] == scores_of(all, filter@)[k],
            forall|k: int|
                0 <= k < i ==> match fuzzy_match(all[k], filter@) {
                    Some((_, places)) => (#[trigger] letters@[k])@ == places,
                    None => true,
                },
        decreases names.len() - i,
    {
        match fuzzy(names[i].as_str(), filter) {
            Some((score, places)) => {
                scores.push(Some(score));
                letters.push(places);
            },
            None => {
                scores.push(None);
                letters.push(Vec::new());
            },
        }
        i += 1;
    }
    assert(scores@ =~= scores_of(all, filter@));
    let order = rank(&scores);
    let mut picked: Vec<Vec<usize>> = Vec::new();
    let mut k: usize = 0;
    while k < order.len()
        invariant
            k <= order.len(),
            all == views(names@),
            letters@.len() == names@.len(),
            scores@ == scores_of(all, filter@),
            is_ranking(order@, scores@),
            picked@.len() == k,
            forall|j: int|
                0 <= j < names@.len() ==> match fuzzy_match(all[j], filter@) {
                    Some((_, places)) => (#[trigger] letters@[j])@ == places,
                    None => true,
                },
            forall|j: int|
                0 <= j < k ==> match fuzzy_match(all[(#[trigger] order@[j]) as int], filter@) {
                    Some((_, places)) => picked@[j]@ == places,
                    None => false,
                },
        decreases order.len() - k,
    {
        let place = order[k];
        assert(order@.contains(place));
        assert(scores_of(all, filter@)[place as int] is Some);
        let ghost earlier = picked@;
        picked.push(letters[place].clone());
        proof {
            assert forall|j: int| 0 <= j < k + 1 implies match fuzzy_match(
                all[(#[trigger] order@[j]) as int],
                filter@,
            ) {
                Some((_, places)) => picked@[j]@ == places,
                None => false,
            } by {
                if j < k {
                    assert(picked@[j] == earlier[j]);
                } else {
                    assert(picked@[j]@ == letters@[place as int]@);
                }
            }
        }
        k += 1;
    }
    (order, picked)
}

/// The names of the packages.
pub open spec fn package_names(packages: Seq<Package>) -> Seq<Seq<char>> {
    packages.map_values(|package: Package| package.name@)
}

/// The names of the dependencies.
pub open spec fn dependency_names(dependencies: Seq<Dependency>) -> Seq<Seq<char>> {
    dependencies.map_values(|dependency: Dependency| dependency.name@)
}

/// The names that the dependencies are shown as with the given marks.
pub open spec fn shown_names(dependencies: Seq<Dependency>, markers: NameMarkers) -> Seq<Seq<char>> {
    dependencies.map_values(|dependency: Dependency| dependency.spec_name(markers))
}

/// The names that the items stand for.
pub open spec fn item_names(items: Seq<FilterViewItem>) -> Seq<Seq<char>> {
    items.map_values(|item: FilterViewItem| item.spec_name())
}

/// The names at the given places, in the order of the places.
pub open spec fn names_at(names: Seq<Seq<char>>, places: Seq<usize>) -> Seq<Seq<char>> {
    places.map_values(|place: usize| names[place as int])
}

impl FilterView {
    /// The items for the features of `dependency` that match `filter`,
    /// the best match first; for an empty filter all features, those of
    /// the default set first, each part in the order of the names. The
    /// feature called `default` is left out.
    pub fn data_from_dependency(dependency: &Dependency, filter: &str) -> (items: Vec<FilterViewItem>)
        ensures
            filter@.len() == 0 ==> item_names(items@) == sorted_names(
                dependency.features@.shown_list(true),
            ) + sorted_names(dependency.features@.shown_list(false)),
            filter@.len() > 0 ==> exists|places: Seq<usize>|
                {
                    &&& #[trigger] is_ranking(
                        places,
                        scores_of(dependency.features@.shown_list_all(), filter@),
                    )
                    &&& item_names(items@) == names_at(dependency.features@.shown_list_all(), places)
                },
    {
        if filter.unicode_len() == 0 {
            let defaults = Self::shown_features(dependency, Some(true));
            let others = Self::shown_features(dependency, Some(false));
            proof {
                use_type_invariant(&dependency.features);
                dependency.features@.lemma_shown_lists_unique(true);
                dependency.features@.lemma_shown_lists_unique(false);
            }
            let first = sort_names(defaults);
            let second = sort_names(others);
            let mut items: Vec<FilterViewItem> = Vec::new();
            let mut i: usize = 0;
            while i < first.len()
                invariant
                    i <= first.len(),
                    items@.len() == i,
                    forall|k: int| 0 <= k < i ==> #[trigger] item_names(items@)[k] == views(first@)[k],
                decreases first.len() - i,
            {
                let ghost earlier = items@;
                items.push(FilterViewItem::from_feature(first[i].as_str(), Vec::new()));
                proof {
                    assert forall|k: int| 0 <= k < i + 1 implies #[trigger] item_names(items@)[k]
                        == views(first@)[k] by {
                        if k < i {
                            assert(items@[k] == earlier[k]);
                            assert(item_names(earlier)[k] == views(first@)[k]);
                        }
                    }
                }
                i += 1;
            }
            let mut j: usize = 0;
            while j < second.len()
                invariant
                    j <= second.len(),
                    items@.len() == first@.len() + j,
                    forall|k: int|
                        0 <= k < first@.len() ==> #[trigger] item_names(items@)[k] == views(first@)[k],
                    forall|k: int|
                        0 <= k < j ==> #[trigger] item_names(items@)[first@.len() + k] == views(
                            second@,
                        )[k],
                decreases second.len() - j,
            {
                let ghost earlier = items@;
                items.push(FilterViewItem::from_feature(second[j].as_str(), Vec::new()));
                proof {
                    assert forall|k: int| 0 <= k < first@.len() implies #[trigger] item_names(items@)[k]
                        == views(first@)[k] by {
                        assert(items@[k] == earlier[k]);
                        assert(item_names(earlier)[k] == views(first@)[k]);
                    }
                    assert forall|k: int| 0 <= k < j + 1 implies #[trigger] item_names(
                        items@,
                    )[first@.len() + k] == views(second@)[k] by {
                        if k < j {
                            assert(items@[first@.len() + k] == earlier[first@.len() + k]);
                            assert(item_names(earlier)[first@.len() + k] == views(second@)[k]);
                        }
                    }
                }
                j += 1;
            }
            proof {
                let joined = views(first@) + views(second@);
                assert(item_names(items@).len() == joined.len());
                assert forall|k: int| 0 <= k < joined.len() implies item_names(items@)[k] == joined[k] by {
                    if k >= first@.len() {
                        let rest = k - first@.len();
                        assert(item_names(items@)[first@.len() + rest] == views(second@)[rest]);
                    }
                }
                assert(item_names(items@) =~= joined);
            }
            items
        } else {
            let names = Self::shown_features(dependency, None);
            let (order, letters) = matching_places(&names, filter);
            proof {
                assert forall|k: int| 0 <= k < order@.len() implies (#[trigger] order@[k]) < names@.len() by {
                    assert(order@.contains(order@[k]));
                }
            }
            let items = Self::feature_items(&names, &order, letters);
            proof {
                assert(is_ranking(order@, scores_of(dependency.features@.shown_list_all(), filter@)));
            }
            items
        }
    }

    /// The items for the dependencies of `package`, shown with the given
    /// marks, that match `filter`, the best match first; for an empty
    /// filter all dependencies in the order of their names.
    pub fn data_from_package_with(package: &Package, filter: &str, markers: &NameMarkers) -> (items:
        Vec<FilterViewItem>)
        ensures
            exists|places: Seq<usize>|
                {
                    &&& if filter@.len() == 0 {
                        is_name_order(places, dependency_names(package.dependencies@))
                    } else {
                        is_ranking(
                            places,
                            scores_of(shown_names(package.dependencies@, *markers), filter@),
                        )
                    }
                    &&& #[trigger] names_at(shown_names(package.dependencies@, *markers), places)
                        == item_names(items@)
                },
    {
        let ghost shown = shown_names(package.dependencies@, *markers);
        let mut plain: Vec<String> = Vec::new();
        let mut names: Vec<String> = Vec::new();
        let mut i: usize = 0;
        while i < package.dependencies.len()
            invariant
                i <= package.dependencies.len(),
                shown == shown_names(package.dependencies@, *markers),
                plain@.len() == i,
                names@.len() == i,
                forall|k: int| 0 <= k < i ==> #[trigger] views(plain@)[k] == package.dependencies@[k].name@,
                forall|k: int| 0 <= k < i ==> #[trigger] views(names@)[k] == shown[k],
            decreases package.dependencies.len() - i,
        {
            let ghost earlier_plain = plain@;
            let ghost earlier_names = names@;
            plain.push(package.dependencies[i].name.clone());
            names.push(package.dependencies[i].name_with(markers));
            proof {
                assert forall|k: int| 0 <= k < i + 1 implies #[trigger] views(plain@)[k]
                    == package.dependencies@[k].name@ by {
                    if k < i {
                        assert(plain@[k] == earlier_plain[k]);
                        assert(views(earlier_plain)[k] == package.dependencies@[k].name@);
                    }
                }
                assert forall|k: int| 0 <= k < i + 1 implies #[trigger] views(names@)[k] == shown[k] by {
                    if k < i {
                        assert(names@[k] == earlier_names[k]);
                        assert(views(earlier_names)[k] == shown[k]);
                    }
                }
            }
            i += 1;
        }
        assert(views(plain@) =~= dependency_names(package.dependencies@));
        assert(views(names@) =~= shown);
        let (order, letters) = if filter.unicode_len() == 0 {
            let order = order_by_name(&plain);
            let mut letters: Vec<Vec<usize>> = Vec::new();
            let mut k: usize = 0;
            while k < order.len()
                invariant
                    k <= order.len(),
                    letters@.len() == k,
                decreases order.len() - k,
            {
                letters.push(Vec::new());
                k += 1;
            }
            (order, letters)
        } else {
            matching_places(&names, filter)
        };
        proof {
            assert forall|k: int| 0 <= k < order@.len() implies (#[trigger] order@[k])
                < package.dependencies@.len() by {
                assert(order@.contains(order@[k]));
            }
        }
        let mut letters = letters;
        let mut items: Vec<FilterViewItem> = Vec::new();
        let mut k: usize = 0;
        while k < order.len()
            invariant
                k <= order.len(),
                letters@.len() == order@.len(),
                shown == shown_names(package.dependencies@, *markers),
                forall|j: int|
                    0 <= j < order@.len() ==> (#[trigger] order@[j]) < package.dependencies@.len(),
                items@.len() == k,
                forall|j: int| 0 <= j < k ==> #[trigger] item_names(items@)[j] == shown[order@[j] as int],
            decreases order.len() - k,
        {
            let mut places: Vec<usize> = Vec::new();
            std::mem::swap(&mut letters[k], &mut places);
            let ghost earlier = items@;
            items.push(
                FilterViewItem::from_dependency_with(&package.dependencies[order[k]], places, markers),
            );
            proof {
                assert forall|j: int| 0 <= j < k + 1 implies #[trigger] item_names(items@)[j]
                    == shown[order@[j] as int] by {
                    if j < k {
                        assert(items@[j] == earlier[j]);
                        assert(item_names(earlier)[j] == shown[order@[j] as int]);
                    }
                }
            }
            k += 1;
        }
        assert(item_names(items@) =~= names_at(shown, order@));
        items
    }

    /// The items for the dependencies of `package`, shown with the marks
    /// for the terminal at hand.
    pub fn data_from_package(package: &Package, filter: &str) -> (items: Vec<FilterViewItem>)
        ensures
            exists|markers: NameMarkers, places: Seq<usize>|
                {
                    &&& if filter@.len() == 0 {
                        is_name_order(places, dependency_names(package.dependencies@))
                    } else {
                        is_ranking(
                            places,
                            scores_of(shown_names(package.dependencies@, markers), filter@),
                        )
                    }
                    &&& #[trigger] names_at(shown_names(package.dependencies@, markers), places)
                        == item_names(items@)
                },
    {
        let markers = NameMarkers::for_terminal();
        Self::data_from_package_with(package, filter, &markers)
    }

    /// The items for the packages of `document` that match `filter`, the
    /// best match first; for an empty filter all packages in the order of
    /// their names.
    pub fn data_from_document(document: &Document, filter: &str) -> (items: Vec<FilterViewItem>)
        ensures
            exists|places: Seq<usize>|
                {
                    &&& if filter@.len() == 0 {
                        is_name_order(places, package_names(document.spec_packages()))
                    } else {
                        is_ranking(
                            places,
                            scores_of(package_names(document.spec_packages()), filter@),
                        )
                    }
                    &&& #[trigger] names_at(package_names(document.spec_packages()), places)
                        == item_names(items@)
                },
    {
        let packages = document.get_packages();
        let ghost all = package_names(packages@);
        let mut names: Vec<String> = Vec::new();
        let mut i: usize = 0;
        while i < packages.len()
            invariant
                i <= packages.len(),
                all == package_names(packages@),
                names@.len() == i,
                forall|k: int| 0 <= k < i ==> #[trigger] views(names@)[k] == all[k],
            decreases packages.len() - i,
        {
            let ghost earlier = names@;
            names.push(packages[i].name.clone());
            proof {
                assert forall|k: int| 0 <= k < i + 1 implies #[trigger] views(names@)[k] == all[k] by {
                    if k < i {
                        assert(names@[k] == earlier[k]);
                        assert(views(earlier)[k] == all[k]);
                    }
                }
            }
            i += 1;
        }
        assert(views(names@) =~= all);
        let (order, letters) = if filter.unicode_len() == 0 {
            let order = order_by_name(&names);
            let mut letters: Vec<Vec<usize>> = Vec::new();
            let mut k: usize = 0;
            while k < order.len()
                invariant
                    k <= order.len(),
                    letters@.len() == k,
                decreases order.len() - k,
            {
                letters.push(Vec::new());
                k += 1;
            }
            (order, letters)
        } else {
            matching_places(&names, filter)
        };
        proof {
            assert forall|k: int| 0 <= k < order@.len() implies (#[trigger] order@[k]) < packages@.len() by {
                assert(order@.contains(order@[k]));
            }
        }
        let mut letters = letters;
        let mut items: Vec<FilterViewItem> = Vec::new();
        let mut k: usize = 0;
        while k < order.len()
            invariant
                k <= order.len(),
                letters@.len() == order@.len(),
                all == package_names(packages@),
                forall|j: int| 0 <= j < order@.len() ==> (#[trigger] order@[j]) < packages@.len(),
                items@.len() == k,
                forall|j: int| 0 <= j < k ==> #[trigger] item_names(items@)[j] == all[order@[j] as int],
            decreases order.len() - k,
        {
            let mut places: Vec<usize> = Vec::new();
            std::mem::swap(&mut letters[k], &mut places);
            let ghost earlier = items@;
            items.push(FilterViewItem::from_package(&packages[order[k]], places));
            proof {
                assert forall|j: int| 0 <= j < k + 1 implies #[trigger] item_names(items@)[j]
                    == all[order@[j] as int] by {
                    if j < k {
                        assert(items@[j] == earlier[j]);
                        assert(item_names(earlier)[j] == all[order@[j] as int]);
                    }
                }
            }
            k += 1;
        }
        assert(item_names(items@) =~= names_at(all, order@));
        items
    }

    /// The names of the features to show: all but `default`, and of those
    /// the ones inside or outside the default set where `default` says so.
    fn shown_features(dependency: &Dependency, default: Option<bool>) -> (names: Vec<String>)
        ensures
            views(names@) == match default {
                Some(default) => dependency.features@.shown_list(default),
                None => dependency.features@.shown_list_all(),
            },
    {
        let default_name = "default".to_owned();
        let count = dependency.features.len();
        let mut picked: Vec<bool> = Vec::new();
        let mut i: usize = 0;
        while i < count
            invariant
                count == dependency.features@.len(),
                i <= count,
                picked@.len() == i,
                default_name@ == "default"@,
                forall|k: int|
                    0 <= k < i ==> picked@[k] == ((#[trigger] dependency.features@.entries[k]).name
                        != "default"@ && match default {
                        Some(default) => dependency.features@.entries[k].feature.is_default == default,
                        None => true,
                    }),
            decreases count - i,
        {
            let fits = match default {
                Some(default) => dependency.features.data_at(i).is_default == default,
                None => true,
            };
            picked.push(!(*dependency.features.name_at(i) == default_name) && fits);
            i += 1;
        }
        match default {
            Some(default) => dependency.features.names_where(
                &picked,
                Ghost(
                    |entry: FeatureEntry| entry.name != "default"@ && entry.feature.is_default == default,
                ),
            ),
            None => dependency.features.names_where(
                &picked,
                Ghost(|entry: FeatureEntry| entry.name != "default"@),
            ),
        }
    }

    /// The items for the names at the places of `order`, each with its
    /// matching letters set off.
    fn feature_items(names: &Vec<String>, order: &Vec<usize>, letters: Vec<Vec<usize>>) -> (items: Vec<
        FilterViewItem,
    >)
        requires
            letters@.len() == order@.len(),
            forall|k: int| 0 <= k < order@.len() ==> (#[trigger] order@[k]) < names@.len(),
        ensures
            item_names(items@) == names_at(views(names@), order@),
    {
        let mut letters = letters;
        let mut items: Vec<FilterViewItem> = Vec::new();
        let mut k: usize = 0;
        while k < order.len()
            invariant
                k <= order.len(),
                letters@.len() == order@.len(),
                forall|j: int| 0 <= j < order@.len() ==> (#[trigger] order@[j]) < names@.len(),
                items@.len() == k,
                forall|j: int|
                    0 <= j < k ==> #[trigger] item_names(items@)[j] == views(names@)[order@[j] as int],
            decreases order.len() - k,
        {
            let mut places: Vec<usize> = Vec::new();
            std::mem::swap(&mut letters[k], &mut places);
            let ghost earlier = items@;
            items.push(FilterViewItem::from_feature(names[order[k]].as_str(), places));
            proof {
                assert forall|j: int| 0 <= j < k + 1 implies #[trigger] item_names(items@)[j] == views(
                    names@,
                )[order@[j] as int] by {
                    if j < k {
                        assert(items@[j] == earlier[j]);
                        assert(item_names(earlier)[j] == views(names@)[order@[j] as int]);
                    }
                }
            }
            k += 1;
        }
        assert(item_names(items@) =~= names_at(views(names@), order@));
        items
    }
}

} // verus!
