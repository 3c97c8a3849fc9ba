//! The search for needless features, step by step: each candidate is
//! switched off, the project is built and tested, and the candidate counts
//! as needless if that still passes. Building, testing and writing
//! manifests is left to the caller; what to do next is decided here.

use vstd::prelude::*;
use crate::candidates::{list_under, listed_under, tables_of, FeaturesMap};
use crate::closure::{
    collect_implied, implied_by_any, keep_names, keep_outside, set_features_to_be_disabled,
};
use crate::dependency::Dependency;
use crate::document::Document;
use crate::error::Error;
use crate::feature::EnabledState;
use crate::graph::{Direction, FeatureGraph};
use crate::name_map::{NameMap, NameTable};
use crate::names::{contains_name, views};
use crate::plan::{step_views, Step, StepView, TaskView};
use crate::walk::{outside, Walk};

verus! {

/// When the build's leftovers are to be cleared away.
#[derive(Clone, Copy, Debug, PartialEq, Eq, Structural)]
pub enum CleanLevel {
    Never,
    /// After each package.
    Package,
    /// After each dependency.
    Dependency,
}

/// A candidate that turned out needless.
#[derive(Debug)]
pub struct Finding {
    pub feature: String,
    /// The feature is known to matter although no build or test shows it;
    /// it stays enabled.
    pub known: bool,
}

/// The mathematical content of a [`Finding`].
pub struct FindingView {
    pub feature: Seq<char>,
    pub known: bool,
}

impl View for Finding {
    type V = FindingView;

    open spec fn view(&self) -> FindingView {
        FindingView { feature: self.feature@, known: self.known }
    }
}

/// What the caller is to do before it asks for the next step.
#[derive(Debug)]
pub enum Action {
    /// Nothing but to show that the search has come to this package.
    Package { name: String },
    /// Write the selection of features of this dependency to its
    /// manifest. `feature` is the place of the candidate at hand among
    /// the candidates of the dependency; `restored` tells whether the
    /// dependency is back in the state from before the trial.
    Save { package: String, dependency: String, feature: usize, restored: bool },
    /// Build the project, and run its tests if `tests` is set; then hand
    /// in whether all of it passed.
    Check { tests: bool },
    /// Show what was found for this dependency; then clear the build's
    /// leftovers away if `clean` is set.
    Report { package: String, dependency: String, findings: Vec<Finding>, clean: bool },
    /// The search leaves a package; clear the build's leftovers away if
    /// `clean` is set.
    PackageEnd { clean: bool },
    /// The search is over. `notice` tells whether a feature was met that
    /// is known to matter although no build or test shows it.
    Finish { notice: bool },
}

/// The mathematical content of an [`Action`].
pub enum ActionView {
    Package { name: Seq<char> },
    Save { package: Seq<char>, dependency: Seq<char>, feature: int, restored: bool },
    Check { tests: bool },
    Report { package: Seq<char>, dependency: Seq<char>, findings: Seq<FindingView>, clean: bool },
    PackageEnd { clean: bool },
    Finish { notice: bool },
}

impl View for Action {
    type V = ActionView;

    open spec fn view(&self) -> ActionView {
        match self {
            Action::Package { name } => ActionView::Package { name: name@ },
            Action::Save { package, dependency, feature, restored } => ActionView::Save {
                package: package@,
                dependency: dependency@,
                feature: *feature as int,
                restored: *restored,
            },
            Action::Check { tests } => ActionView::Check { tests: *tests },
            Action::Report { package, dependency, findings, clean } => ActionView::Report {
                package: package@,
                dependency: dependency@,
                findings: findings@.map_values(|finding: Finding| finding@),
                clean: *clean,
            },
            Action::PackageEnd { clean } => ActionView::PackageEnd { clean: *clean },
            Action::Finish { notice } => ActionView::Finish { notice: *notice },
        }
    }
}

/// Where the search stands between two steps.
#[derive(Clone, Copy, Debug, PartialEq, Eq, Structural)]
pub enum Phase {
    /// At a step of the plan that has not begun.
    Next,
    /// A candidate is switched off and written; the trial is to be
    /// decided.
    Saved,
    /// The build and the tests have been asked for.
    Checked,
    /// The state from before the trial is back and written.
    Restored,
    /// The search is over.
    Done,
}

/// The candidates that turned out needless, in the order of the
/// candidates, each with the mark of a known feature.
pub open spec fn findings_of(
    features: Seq<Seq<char>>,
    needless: Seq<Seq<char>>,
    known: Seq<Seq<char>>,
) -> Seq<FindingView>
    decreases features.len(),
{
    if features.len() == 0 {
        Seq::empty()
    } else {
        let earlier = findings_of(features.drop_last(), needless, known);
        if needless.contains(features.last()) {
            earlier.push(FindingView { feature: features.last(), known: known.contains(features.last()) })
        } else {
            earlier
        }
    }
}

/// One of the findings is a known feature.
pub open spec fn any_known(findings: Seq<FindingView>) -> bool {
    exists|k: int| 0 <= k < findings.len() && (#[trigger] findings[k]).known
}

/// The findings so far with the needless features of one more dependency.
pub open spec fn recorded(
    found: NameTable<NameTable<Seq<Seq<char>>>>,
    package: Seq<char>,
    dependency: Seq<char>,
    list: Seq<Seq<char>>,
) -> NameTable<NameTable<Seq<Seq<char>>>> {
    found.insert(
        package,
        match found.get(package) {
            Some(inner) => inner.insert(dependency, list),
            None => NameTable::empty().insert(dependency, list),
        },
    )
}

/// `list` holds the features of `known` for the dependency called `name`,
/// each with what it lists, and no name twice.
pub open spec fn is_known_list(
    graph: FeatureGraph,
    known: NameTable<Vec<String>>,
    name: Seq<char>,
    list: Seq<Seq<char>>,
) -> bool {
    &&& list.no_duplicates()
    &&& forall|feature: Seq<char>|
        list.contains(feature) <==> implied_by_any(graph, listed_under(known, name), feature)
}

/// `after` is `before` with `feature` and every feature that requires it,
/// as far as `before` did not hold them.
pub open spec fn is_with_requiring(
    graph: FeatureGraph,
    before: Seq<Seq<char>>,
    feature: Seq<char>,
    after: Seq<Seq<char>>,
) -> bool {
    &&& before.is_prefix_of(after)
    &&& forall|name: Seq<char>|
        after.contains(name) <==> before.contains(name) || graph.walks_to(
            Walk::Requiring,
            outside(before),
            feature,
            name,
        )
}

/// The mathematical content of a [`Pruner`].
pub struct PrunerView {
    pub steps: Seq<StepView>,
    pub known_features: NameTable<Vec<String>>,
    pub skip_tests: bool,
    pub clean_level: CleanLevel,
    /// The place in `steps`.
    pub at: int,
    /// The place of the candidate at hand among the candidates.
    pub feature: int,
    pub phase: Phase,
    /// The known features of the dependency at hand, with what they list.
    pub known_list: Seq<Seq<char>>,
    /// The known features and the features found needless so far, of the
    /// dependency at hand.
    pub to_be_disabled: Seq<Seq<char>>,
    /// The states of the features of the dependency at hand from before
    /// the trial.
    pub snapshot: Seq<EnabledState>,
    /// The needless features of the dependencies done.
    pub found: NameTable<NameTable<Seq<Seq<char>>>>,
    /// A known feature was among the findings.
    pub notice: bool,
}

impl PrunerView {
    /// The dependency at hand.
    pub open spec fn task(self) -> TaskView {
        self.steps[self.at]->Dependency_0
    }

    /// The candidate at hand.
    pub open spec fn candidate(self) -> Seq<char> {
        self.task().features[self.feature]
    }

    /// Every dependency of the plan has a candidate, and between the
    /// steps of a trial the search is at a dependency and one of its
    /// candidates.
    pub open spec fn wf(self) -> bool {
        &&& 0 <= self.at
        &&& forall|k: int|
            0 <= k < self.steps.len() ==> match #[trigger] self.steps[k] {
                StepView::Dependency(task) => task.features.len() > 0,
                _ => true,
            }
        &&& match self.phase {
            Phase::Next | Phase::Done => true,
            _ => {
                &&& self.at < self.steps.len()
                &&& self.steps[self.at] is Dependency
                &&& 0 <= self.feature < self.task().features.len()
            },
        }
    }

    /// The trial of the candidate at place `feature` begins: the states
    /// of the dependency are kept, the candidate is switched off with what
    /// requires it, and the dependency is to be written.
    pub open spec fn begins_trial(
        self,
        feature: int,
        document: Document,
        after: PrunerView,
        after_document: Document,
        action: ActionView,
    ) -> bool {
        let task = self.task();
        match document.spec_dependency(task.package, task.dependency) {
            Some(dependency) => {
                &&& dependency.features@.contains(task.features[feature])
                &&& document.differs_at(&after_document, task.package, task.dependency)
                &&& match after_document.spec_dependency(task.package, task.dependency) {
                    Some(changed) => changed.same_declaration(&dependency) && changed.features@
                        == dependency.features@.disable_feature(task.features[feature]),
                    None => false,
                }
                &&& after == PrunerView {
                    feature,
                    phase: Phase::Saved,
                    snapshot: dependency.features@.states(),
                    ..self
                }
                &&& action == ActionView::Save {
                    package: task.package_name,
                    dependency: task.dependency_name,
                    feature,
                    restored: false,
                }
            },
            None => false,
        }
    }

    /// The trial of the candidate at place `feature` cannot begin: the
    /// project has no dependency at the place of the task, or the
    /// dependency no feature of the candidate's name.
    pub open spec fn cannot_begin(self, feature: int, document: Document) -> bool {
        let task = self.task();
        match document.spec_dependency(task.package, task.dependency) {
            Some(dependency) => !dependency.features@.contains(task.features[feature]),
            None => true,
        }
    }

    /// The trial ends: the features of the dependency are put back into
    /// the states from before the trial, and the dependency is to be
    /// written.
    pub open spec fn ends_trial(
        self,
        document: Document,
        after: PrunerView,
        after_document: Document,
        action: ActionView,
    ) -> bool {
        let task = self.task();
        match document.spec_dependency(task.package, task.dependency) {
            Some(dependency) => {
                &&& self.snapshot.len() == dependency.features@.len()
                &&& document.differs_at(&after_document, task.package, task.dependency)
                &&& match after_document.spec_dependency(task.package, task.dependency) {
                    Some(changed) => changed.same_declaration(&dependency) && changed.features@
                        == dependency.features@.with_states(self.snapshot),
                    None => false,
                }
                &&& after == PrunerView { phase: Phase::Restored, ..self }
                &&& action == ActionView::Save {
                    package: task.package_name,
                    dependency: task.dependency_name,
                    feature: self.feature,
                    restored: true,
                }
            },
            None => false,
        }
    }

    /// The trial cannot end: the project has no dependency at the place
    /// of the task, or the dependency another number of features than
    /// before the trial.
    pub open spec fn cannot_end(self, document: Document) -> bool {
        let task = self.task();
        match document.spec_dependency(task.package, task.dependency) {
            Some(dependency) => self.snapshot.len() != dependency.features@.len(),
            None => true,
        }
    }

    /// The dependency at hand is done: its needless features, the known
    /// ones set aside, are added to what was found, and the findings are
    /// to be shown.
    pub open spec fn reports(self, after: PrunerView, action: ActionView) -> bool {
        let task = self.task();
        let findings = findings_of(task.features, self.to_be_disabled, self.known_list);
        &&& after == PrunerView {
            at: self.at + 1,
            phase: Phase::Next,
            found: recorded(
                self.found,
                task.package_name,
                task.dependency_name,
                keep_names(self.to_be_disabled, outside(self.known_list)),
            ),
            notice: self.notice || any_known(findings),
            ..self
        }
        &&& action == ActionView::Report {
            package: task.package_name,
            dependency: task.dependency_name,
            findings,
            clean: self.clean_level == CleanLevel::Dependency,
        }
    }

    /// One step of the search: from this state and the project as it is,
    /// with `passed` for the outcome of the build and the tests where they
    /// were asked for, to the next state, the project as it is then, and
    /// what the caller is to do.
    pub open spec fn steps_to(
        self,
        document: Document,
        passed: bool,
        after: PrunerView,
        after_document: Document,
        action: ActionView,
    ) -> bool {
        match self.phase {
            Phase::Next => if self.at >= self.steps.len() {
                &&& after == PrunerView { phase: Phase::Done, ..self }
                &&& after_document == document
                &&& action == ActionView::Finish { notice: self.notice }
            } else {
                match self.steps[self.at] {
                    StepView::Package(name) => {
                        &&& after == PrunerView { at: self.at + 1, ..self }
                        &&& after_document == document
                        &&& action == ActionView::Package { name }
                    },
                    StepView::PackageEnd => {
                        &&& after == PrunerView { at: self.at + 1, ..self }
                        &&& after_document == document
                        &&& action == ActionView::PackageEnd {
                            clean: self.clean_level == CleanLevel::Package,
                        }
                    },
                    StepView::Dependency(task) => match document.spec_dependency(
                        task.package,
                        task.dependency,
                    ) {
                        Some(dependency) => exists|known_list: Seq<Seq<char>>|
                            is_known_list(
                                dependency.features@,
                                self.known_features,
                                dependency.name@,
                                known_list,
                            ) && #[trigger] (PrunerView {
                                known_list,
                                to_be_disabled: known_list,
                                ..self
                            }).begins_trial(0, document, after, after_document, action),
                        None => false,
                    },
                }
            },
            Phase::Saved => if self.to_be_disabled.contains(self.candidate()) {
                self.ends_trial(document, after, after_document, action)
            } else {
                &&& after == PrunerView { phase: Phase::Checked, ..self }
                &&& after_document == document
                &&& action == ActionView::Check { tests: !self.skip_tests }
            },
            Phase::Checked => match document.spec_dependency(
                self.task().package,
                self.task().dependency,
            ) {
                Some(dependency) => exists|needless: Seq<Seq<char>>|
                    (if passed {
                        is_with_requiring(
                            dependency.features@,
                            self.to_be_disabled,
                            self.candidate(),
                            needless,
                        )
                    } else {
                        needless == self.to_be_disabled
                    }) && #[trigger] (PrunerView { to_be_disabled: needless, ..self }).ends_trial(
                        document,
                        after,
                        after_document,
                        action,
                    ),
                None => false,
            },
            Phase::Restored => if self.feature + 1 < self.task().features.len() {
                self.begins_trial(self.feature + 1, document, after, after_document, action)
            } else {
                after_document == document && self.reports(after, action)
            },
            Phase::Done => {
                &&& after == self
                &&& after_document == document
                &&& action == ActionView::Finish { notice: self.notice }
            },
        }
    }

    /// The step cannot be taken.
    pub open spec fn is_stuck(self, document: Document) -> bool {
        match self.phase {
            Phase::Next => self.at < self.steps.len() && self.steps[self.at] is Dependency
                && self.cannot_begin(0, document),
            Phase::Saved => self.to_be_disabled.contains(self.candidate()) && self.cannot_end(
                document,
            ),
            Phase::Checked => self.cannot_end(document),
            Phase::Restored => self.feature + 1 < self.task().features.len() && self.cannot_begin(
                self.feature + 1,
                document,
            ),
            Phase::Done => false,
        }
    }
}

/// Every name of `part` is a name of `whole`.
pub open spec fn is_part_of(part: Seq<Seq<char>>, whole: Seq<Seq<char>>) -> bool {
    forall|name: Seq<char>| part.contains(name) ==> whole.contains(name)
}

/// With every feature outside `known` that it holds, `needless` holds the
/// features that require it.
pub open spec fn holds_requiring(
    graph: FeatureGraph,
    known: Seq<Seq<char>>,
    needless: Seq<Seq<char>>,
) -> bool {
    forall|a: Seq<char>, b: Seq<char>|
        needless.contains(a) && !known.contains(a) && #[trigger] graph.leads(Walk::Requiring, a, b)
            ==> needless.contains(b)
}

impl PrunerView {
    /// A feature that is known to matter without a build or a test
    /// showing it is never put to the build and the tests: throughout the
    /// trials of a dependency the known features are among the features
    /// that count as needless, and the build and the tests are asked for
    /// only for a candidate that is not among these.
    pub proof fn lemma_known_features_are_not_checked(
        self,
        document: Document,
        passed: bool,
        after: PrunerView,
        after_document: Document,
        action: ActionView,
    )
        requires
            self.wf(),
            self.steps_to(document, passed, after, after_document, action),
            self.in_trial() ==> is_part_of(self.known_list, self.to_be_disabled),
        ensures
            after.in_trial() ==> is_part_of(after.known_list, after.to_be_disabled),
            action is Check ==> !self.known_list.contains(self.candidate()),
    {
        match self.phase {
            Phase::Checked => {
                let dependency = document.spec_dependency(self.task().package, self.task().dependency).unwrap();
                let needless = choose|needless: Seq<Seq<char>>|
                    (if passed {
                        is_with_requiring(
                            dependency.features@,
                            self.to_be_disabled,
                            self.candidate(),
                            needless,
                        )
                    } else {
                        needless == self.to_be_disabled
                    }) && #[trigger] (PrunerView { to_be_disabled: needless, ..self }).ends_trial(
                        document,
                        after,
                        after_document,
                        action,
                    );
                assert(after.to_be_disabled == needless);
                assert forall|name: Seq<char>| self.to_be_disabled.contains(name) implies needless.contains(
                    name,
                ) by {
                    let k = choose|k: int|
                        0 <= k < self.to_be_disabled.len() && self.to_be_disabled[k] == name;
                    assert(needless[k] == name);
                }
            },
            _ => {},
        }
    }

    /// A trial leaves the features of the dependency as they were: when a
    /// trial ends after it has begun, with the build and the tests between
    /// them or without, and the project is not changed otherwise in
    /// between, the dependency at hand has the features, in the states,
    /// that it had before the trial.
    pub proof fn lemma_trial_leaves_features_as_they_were(
        self,
        feature: int,
        before: Document,
        began: PrunerView,
        during: Document,
        ending: PrunerView,
        ended: PrunerView,
        after: Document,
        first: ActionView,
        last: ActionView,
    )
        requires
            self.begins_trial(feature, before, began, during, first),
            ending.steps == began.steps,
            ending.at == began.at,
            ending.snapshot == began.snapshot,
            ending.ends_trial(during, ended, after, last),
        ensures
            match (
                before.spec_dependency(self.task().package, self.task().dependency),
                after.spec_dependency(self.task().package, self.task().dependency),
            ) {
                (Some(earlier), Some(later)) => later.same_declaration(&earlier) && later.features@
                    == earlier.features@,
                _ => false,
            },
    {
        let task = self.task();
        let earlier = before.spec_dependency(task.package, task.dependency).unwrap();
        let changed = during.spec_dependency(task.package, task.dependency).unwrap();
        let name = task.features[feature];
        if earlier.features@.contains(name) {
            earlier.features@.lemma_cascade(
                Direction::Disable,
                earlier.features@.index_of(name),
            );
        }
        FeatureGraph::lemma_same_shape_sym(earlier.features@, changed.features@);
        changed.features@.lemma_with_states(earlier.features@);
    }

    /// The search is in the trials of a dependency.
    pub open spec fn in_trial(self) -> bool {
        self.phase == Phase::Saved || self.phase == Phase::Checked || self.phase == Phase::Restored
    }

    /// A feature that is found needless takes with it every feature that
    /// requires it: when the build and the tests have passed without the
    /// candidate, the candidate counts as needless, and with every feature
    /// outside the known ones that counts as needless, the features that
    /// require it do.
    pub proof fn lemma_needless_features_take_what_requires_them(
        self,
        document: Document,
        passed: bool,
        after: PrunerView,
        after_document: Document,
        action: ActionView,
    )
        requires
            self.wf(),
            self.phase == Phase::Checked,
            self.steps_to(document, passed, after, after_document, action),
            holds_requiring(
                document.spec_dependency(self.task().package, self.task().dependency).unwrap().features@,
                self.known_list,
                self.to_be_disabled,
            ),
        ensures
            passed ==> after.to_be_disabled.contains(self.candidate()),
            after.known_list == self.known_list,
            holds_requiring(
                document.spec_dependency(self.task().package, self.task().dependency).unwrap().features@,
                after.known_list,
                after.to_be_disabled,
            ),
            action is Save,
    {
        let dependency = document.spec_dependency(self.task().package, self.task().dependency).unwrap();
        let graph = dependency.features@;
        let needless = choose|needless: Seq<Seq<char>>|
            (if passed {
                is_with_requiring(graph, self.to_be_disabled, self.candidate(), needless)
            } else {
                needless == self.to_be_disabled
            }) && #[trigger] (PrunerView { to_be_disabled: needless, ..self }).ends_trial(
                document,
                after,
                after_document,
                action,
            );
        assert(after.to_be_disabled == needless);
        if passed {
            crate::closure::lemma_add_keeps_closed(
                graph,
                Walk::Requiring,
                self.to_be_disabled,
                self.candidate(),
                needless,
                self.known_list,
            );
            if !self.to_be_disabled.contains(self.candidate()) {
                graph.lemma_walk_start(Walk::Requiring, outside(self.to_be_disabled), self.candidate());
            }
        }
    }
}

/// A step that has something to do: a dependency without candidates has
/// not.
pub open spec fn has_work(step: StepView) -> bool {
    match step {
        StepView::Dependency(task) => task.features.len() > 0,
        _ => true,
    }
}

/// The steps that have something to do.
pub open spec fn working_steps(steps: Seq<StepView>) -> Seq<StepView> {
    steps.filter(|step: StepView| has_work(step))
}

/// Switches `feature` off in the dependency at place `dependency` of the
/// package at place `package`, with what requires it, and hands back the
/// states of the features from before. Nothing changes where there is no
/// such dependency, or no such feature in it.
pub fn switch_off(document: &mut Document, package: usize, dependency: usize, feature: &String) -> (result:
    Result<Vec<EnabledState>, Error>)
    ensures
        match result {
            Ok(states) => match old(document).spec_dependency(package as int, dependency as int) {
                Some(before) => {
                    &&& before.features@.contains(feature@)
                    &&& states@ == before.features@.states()
                    &&& old(document).differs_at(final(document), package as int, dependency as int)
                    &&& match final(document).spec_dependency(package as int, dependency as int) {
                        Some(changed) => changed.same_declaration(&before) && changed.features@
                            == before.features@.disable_feature(feature@),
                        None => false,
                    }
                },
                None => false,
            },
            Err(_) => {
                &&& *final(document) == *old(document)
                &&& match old(document).spec_dependency(package as int, dependency as int) {
                    Some(before) => !before.features@.contains(feature@),
                    None => true,
                }
            },
        },
{
    let states = match document.dependency_at(package, dependency) {
        Some(found) => {
            if !found.features.contains_key(feature.as_str()) {
                return Err(Error::FeatureNotFound(feature.clone()));
            }
            found.features.states()
        },
        None => {
            return Err(Error::DependencyIndexNotFound(dependency));
        },
    };
    match document.dependency_at_mut(package, dependency) {
        Some(found) => {
            let _ = found.disable_feature(feature.as_str());
        },
        None => {},
    }
    Ok(states)
}

/// Puts the features of the dependency at place `dependency` of the
/// package at place `package` into the given states. Nothing changes where
/// there is no such dependency, or where it has more or fewer features
/// than there are states.
pub fn put_back(
    document: &mut Document,
    package: usize,
    dependency: usize,
    states: &Vec<EnabledState>,
) -> (result: Result<(), Error>)
    ensures
        match result {
            Ok(_) => match old(document).spec_dependency(package as int, dependency as int) {
                Some(before) => {
                    &&& states@.len() == before.features@.len()
                    &&& old(document).differs_at(final(document), package as int, dependency as int)
                    &&& match final(document).spec_dependency(package as int, dependency as int) {
                        Some(changed) => changed.same_declaration(&before) && changed.features@
                            == before.features@.with_states(states@),
                        None => false,
                    }
                },
                None => false,
            },
            Err(_) => {
                &&& *final(document) == *old(document)
                &&& match old(document).spec_dependency(package as int, dependency as int) {
                    Some(before) => states@.len() != before.features@.len(),
                    None => true,
                }
            },
        },
{
    match document.dependency_at(package, dependency) {
        Some(found) => {
            if found.features.len() != states.len() {
                return Err(Error::FeatureCountChanged);
            }
        },
        None => {
            return Err(Error::DependencyIndexNotFound(dependency));
        },
    }
    match document.dependency_at_mut(package, dependency) {
        Some(found) => {
            let _ = found.features.restore(states);
        },
        None => {},
    }
    Ok(())
}

/// Adds the needless features `list` of one more dependency to what was
/// found.
pub fn record(found: &mut FeaturesMap, package: &String, dependency: &String, list: Vec<String>)
    ensures
        final(found).wf(),
        tables_of(final(found).table()) == recorded(
            tables_of(old(found).table()),
            package@,
            dependency@,
            views(list@),
        ),
{
    match found.position(package) {
        Some(place) => {
            let mut inner = found.replace_value(place, NameMap::new());
            let ghost before = inner;
            proof {
                use_type_invariant(&inner);
            }
            inner.insert(dependency.clone(), list);
            found.set_value(place, inner);
            proof {
                crate::candidates::lemma_lists_of_insert(before.table(), dependency@, list);
                let left = tables_of(found.table());
                let right = recorded(tables_of(old(found).table()), package@, dependency@, views(list@));
                assert(left.keys =~= right.keys);
                assert(left.values =~= right.values);
            }
        },
        None => {
            let mut inner: NameMap<Vec<String>> = NameMap::new();
            let ghost before = inner;
            inner.insert(dependency.clone(), list);
            proof {
                crate::candidates::lemma_lists_of_insert(before.table(), dependency@, list);
                crate::candidates::lemma_tables_of_insert(old(found).table(), package@, inner);
                assert(crate::candidates::lists_of(before.table()).keys =~= NameTable::<
                    Seq<Seq<char>>,
                >::empty().keys);
                assert(crate::candidates::lists_of(before.table()).values =~= NameTable::<
                    Seq<Seq<char>>,
                >::empty().values);
            }
            found.insert(package.clone(), inner);
        },
    }
}

/// The candidates that turned out needless, each with the mark of a known
/// feature.
pub fn findings(features: &Vec<String>, needless: &Vec<String>, known: &Vec<String>) -> (found: Vec<
    Finding,
>)
    ensures
        found@.map_values(|finding: Finding| finding@) == findings_of(
            views(features@),
            views(needless@),
            views(known@),
        ),
{
    let ghost all = views(features@);
    let mut found: Vec<Finding> = Vec::new();
    let mut i: usize = 0;
    proof {
        assert(all.take(0) =~= Seq::<Seq<char>>::empty());
        assert(found@.map_values(|finding: Finding| finding@) =~= Seq::<FindingView>::empty());
    }
    while i < features.len()
        invariant
            i <= features.len(),
            all == views(features@),
            found@.map_values(|finding: Finding| finding@) == findings_of(
                all.take(i as int),
                views(needless@),
                views(known@),
            ),
        decreases features.len() - i,
    {
        let ghost earlier = found@.map_values(|finding: Finding| finding@);
        proof {
            assert(all.take(i + 1).drop_last() =~= all.take(i as int));
            assert(all.take(i + 1).last() == all[i as int]);
        }
        if contains_name(needless, &features[i]) {
            let finding = Finding {
                feature: features[i].clone(),
                known: contains_name(known, &features[i]),
            };
            found.push(finding);
            proof {
                assert(found@.map_values(|finding: Finding| finding@) =~= earlier.push(finding@));
            }
        }
        i += 1;
    }
    proof {
        assert(all.take(features@.len() as int) =~= all);
    }
    found
}

/// Whether one of the findings is a known feature.
pub fn has_known(found: &Vec<Finding>) -> (any: bool)
    ensures
        any == any_known(found@.map_values(|finding: Finding| finding@)),
{
    let mut i: usize = 0;
    while i < found.len()
        invariant
            i <= found.len(),
            forall|k: int| 0 <= k < i ==> !(#[trigger] found@[k]).known,
        decreases found.len() - i,
    {
        if found[i].known {
            assert(found@.map_values(|finding: Finding| finding@)[i as int].known);
            return true;
        }
        i += 1;
    }
    proof {
        let all = found@.map_values(|finding: Finding| finding@);
        assert forall|k: int| 0 <= k < all.len() implies !(#[trigger] all[k]).known by {
            assert(!found@[k].known);
        }
    }
    false
}

/// The search for needless features between two of its steps.
#[derive(Debug)]
pub struct Pruner {
    steps: Vec<Step>,
    known_features: NameMap<Vec<String>>,
    skip_tests: bool,
    clean_level: CleanLevel,
    at: usize,
    feature: usize,
    phase: Phase,
    known_list: Vec<String>,
    to_be_disabled: Vec<String>,
    snapshot: Vec<EnabledState>,
    found: FeaturesMap,
    notice: bool,
}

impl View for Pruner {
    type V = PrunerView;

    closed spec fn view(&self) -> PrunerView {
        PrunerView {
            steps: step_views(self.steps@),
            known_features: self.known_features.table(),
            skip_tests: self.skip_tests,
            clean_level: self.clean_level,
            at: self.at as int,
            feature: self.feature as int,
            phase: self.phase,
            known_list: views(self.known_list@),
            to_be_disabled: views(self.to_be_disabled@),
            snapshot: self.snapshot@,
            found: tables_of(self.found.table()),
            notice: self.notice,
        }
    }
}

impl Pruner {
    /// Every dependency of the plan has a candidate, and between the steps
    /// of a trial the search is at a dependency and one of its candidates.
    #[verifier::type_invariant]
    pub closed spec fn is_well_formed(&self) -> bool {
        self@.wf()
    }

    /// A search that is about to take the first of `steps`. Dependencies
    /// without candidates are left out of the steps. `known_features`
    /// names, by dependency, the features that matter although no build
    /// or test shows it.
    pub fn new(
        steps: Vec<Step>,
        known_features: NameMap<Vec<String>>,
        skip_tests: bool,
        clean_level: CleanLevel,
    ) -> (pruner: Pruner)
        ensures
            pruner@.wf(),
            pruner@ == (PrunerView {
                steps: working_steps(step_views(steps@)),
                known_features: known_features.table(),
                skip_tests,
                clean_level,
                at: 0,
                feature: 0,
                phase: Phase::Next,
                known_list: Seq::empty(),
                to_be_disabled: Seq::empty(),
                snapshot: Seq::empty(),
                found: NameTable::empty(),
                notice: false,
            }),
    {
        let ghost all = step_views(steps@);
        let ghost works = |step: StepView| has_work(step);
        let mut steps = steps;
        let mut kept: Vec<Step> = Vec::new();
        let mut i: usize = 0;
        proof {
            assert(all.take(0) =~= Seq::<StepView>::empty());
            Seq::<StepView>::empty().lemma_filter_len(works);
            assert(step_views(kept@) =~= all.take(0).filter(works));
        }
        while i < steps.len()
            invariant
                i <= steps.len(),
                steps@.len() == all.len(),
                works == |step: StepView| has_work(step),
                forall|k: int| i <= k < steps@.len() ==> (#[trigger] steps@[k])@ == all[k],
                step_views(kept@) == all.take(i as int).filter(works),
                forall|k: int| 0 <= k < kept@.len() ==> has_work(#[trigger] step_views(kept@)[k]),
            decreases steps.len() - i,
        {
            let ghost seen = all.take(i as int);
            let ghost earlier = step_views(kept@);
            let mut step = Step::PackageEnd;
            std::mem::swap(&mut steps[i], &mut step);
            proof {
                assert(step@ == all[i as int]);
                assert(all.take(i + 1) =~= seen.push(all[i as int]));
                seen.lemma_filter_push(all[i as int], works);
            }
            let keep = match &step {
                Step::Dependency(task) => task.features.len() > 0,
                _ => true,
            };
            if keep {
                kept.push(step);
                proof {
                    assert(step_views(kept@) =~= earlier.push(all[i as int]));
                }
            }
            i += 1;
        }
        proof {
            assert(all.take(steps@.len() as int) =~= all);
        }
        let known_list: Vec<String> = Vec::new();
        let to_be_disabled: Vec<String> = Vec::new();
        let found: FeaturesMap = NameMap::new();
        proof {
            assert(views(known_list@) =~= Seq::<Seq<char>>::empty());
            assert(views(to_be_disabled@) =~= Seq::<Seq<char>>::empty());
            assert(tables_of(found.table()).keys =~= NameTable::<NameTable<Seq<Seq<char>>>>::empty().keys);
            assert(tables_of(found.table()).values =~= NameTable::<
                NameTable<Seq<Seq<char>>>,
            >::empty().values);
        }
        Pruner {
            steps: kept,
            known_features,
            skip_tests,
            clean_level,
            at: 0,
            feature: 0,
            phase: Phase::Next,
            known_list,
            to_be_disabled,
            snapshot: Vec::new(),
            found,
            notice: false,
        }
    }

    /// Whether the search is over.
    pub fn is_done(&self) -> (done: bool)
        ensures
            done == (self@.phase == Phase::Done),
    {
        match self.phase {
            Phase::Done => true,
            _ => false,
        }
    }

    /// The needless features found so far, by package and dependency.
    pub fn found(&self) -> (found: &FeaturesMap)
        ensures
            tables_of(found.table()) == self@.found,
    {
        &self.found
    }

    /// The steps of the search.
    pub fn steps(&self) -> (steps: &Vec<Step>)
        ensures
            step_views(steps@) == self@.steps,
            self@.wf(),
    {
        proof {
            use_type_invariant(self);
        }
        &self.steps
    }

    /// Takes one step of the search and says what the caller is to do
    /// before the next. `passed` is the outcome of the build and the tests
    /// where the step before asked for them, and of no account otherwise.
    ///
    /// The project is changed at the dependency at hand only: a candidate
    /// is switched off when its trial begins, and the states from before
    /// come back when it ends. A candidate that is already known to be
    /// needless, or known to matter without a build or a test showing it,
    /// goes through its trial without the build and the tests.
    ///
    /// Fails, and changes nothing, where the project does not hold what
    /// the step is about.
    pub fn next(&mut self, document: &mut Document, passed: bool) -> (result: Result<Action, Error>)
        ensures
            final(self)@.wf(),
            match result {
                Ok(action) => old(self)@.steps_to(
                    *old(document),
                    passed,
                    final(self)@,
                    *final(document),
                    action@,
                ),
                Err(_) => {
                    &&& old(self)@.is_stuck(*old(document))
                    &&& final(self)@ == old(self)@
                    &&& *final(document) == *old(document)
                },
            },
    {
        proof {
            use_type_invariant(&*self);
            if self.at < self.steps.len() {
                assert(step_views(self.steps@)[self.at as int] == self.steps@[self.at as int]@);
            }
        }
        match self.phase {
            Phase::Next => {
                if self.at >= self.steps.len() {
                    self.phase = Phase::Done;
                    return Ok(Action::Finish { notice: self.notice });
                }
                match &self.steps[self.at] {
                    Step::Package(name) => {
                        let action = Action::Package { name: name.clone() };
                        self.at = self.at + 1;
                        Ok(action)
                    },
                    Step::PackageEnd => {
                        let clean = match self.clean_level {
                            CleanLevel::Package => true,
                            _ => false,
                        };
                        self.at = self.at + 1;
                        Ok(Action::PackageEnd { clean })
                    },
                    Step::Dependency(task) => {
                        let package = task.package;
                        let dependency = task.dependency;
                        let candidate = task.features[0].clone();
                        let action = Action::Save {
                            package: task.package_name.clone(),
                            dependency: task.dependency_name.clone(),
                            feature: 0,
                            restored: false,
                        };
                        let known_list = match document.dependency_at(package, dependency) {
                            Some(found) => {
                                let known = list_under(&self.known_features, &found.name);
                                collect_implied(found, &known)
                            },
                            None => {
                                return Err(Error::DependencyIndexNotFound(dependency));
                            },
                        };
                        let snapshot = match switch_off(document, package, dependency, &candidate) {
                            Ok(snapshot) => snapshot,
                            Err(error) => {
                                return Err(error);
                            },
                        };
                        let to_be_disabled = known_list.clone();
                        proof {
                            assert(views(to_be_disabled@) =~= views(known_list@)) by {
                                assert(to_be_disabled@ == known_list@);
                            }
                        }
                        let ghost seeded = PrunerView {
                            known_list: views(known_list@),
                            to_be_disabled: views(known_list@),
                            ..self@
                        };
                        self.known_list = known_list;
                        self.to_be_disabled = to_be_disabled;
                        self.snapshot = snapshot;
                        self.feature = 0;
                        self.phase = Phase::Saved;
                        proof {
                            assert(seeded.begins_trial(
                                0,
                                *old(document),
                                self@,
                                *document,
                                action@,
                            ));
                        }
                        Ok(action)
                    },
                }
            },
            Phase::Saved => {
                let needless = match &self.steps[self.at] {
                    Step::Dependency(task) => contains_name(
                        &self.to_be_disabled,
                        &task.features[self.feature],
                    ),
                    _ => false,
                };
                if needless {
                    self.end_trial(document)
                } else {
                    self.phase = Phase::Checked;
                    Ok(Action::Check { tests: !self.skip_tests })
                }
            },
            Phase::Checked => {
                let (package, dependency, candidate) = match &self.steps[self.at] {
                    Step::Dependency(task) => (
                        task.package,
                        task.dependency,
                        task.features[self.feature].clone(),
                    ),
                    _ => (0, 0, String::new()),
                };
                let mut needless = self.to_be_disabled.clone();
                proof {
                    assert(views(needless@) =~= views(self.to_be_disabled@)) by {
                        assert(needless@ == self.to_be_disabled@);
                    }
                }
                if passed {
                    match document.dependency_at(package, dependency) {
                        Some(found) => set_features_to_be_disabled(found, candidate, &mut needless),
                        None => {},
                    }
                }
                let ghost changed = PrunerView { to_be_disabled: views(needless@), ..self@ };
                match put_back(document, package, dependency, &self.snapshot) {
                    Ok(_) => {
                        let action = match &self.steps[self.at] {
                            Step::Dependency(task) => Action::Save {
                                package: task.package_name.clone(),
                                dependency: task.dependency_name.clone(),
                                feature: self.feature,
                                restored: true,
                            },
                            _ => Action::Finish { notice: false },
                        };
                        self.to_be_disabled = needless;
                        self.phase = Phase::Restored;
                        proof {
                            assert(changed.ends_trial(*old(document), self@, *document, action@));
                        }
                        Ok(action)
                    },
                    Err(error) => Err(error),
                }
            },
            Phase::Restored => {
                let more = match &self.steps[self.at] {
                    Step::Dependency(task) => {
                        assert(task@ == self@.task());
                        assert(views(task.features@).len() == task.features@.len());
                        self.feature < task.features.len() - 1
                    },
                    _ => false,
                };
                if more {
                    let (package, dependency, candidate, action) = match &self.steps[self.at] {
                        Step::Dependency(task) => (
                            task.package,
                            task.dependency,
                            task.features[self.feature + 1].clone(),
                            Action::Save {
                                package: task.package_name.clone(),
                                dependency: task.dependency_name.clone(),
                                feature: self.feature + 1,
                                restored: false,
                            },
                        ),
                        _ => (0, 0, String::new(), Action::Finish { notice: false }),
                    };
                    let snapshot = match switch_off(document, package, dependency, &candidate) {
                        Ok(snapshot) => snapshot,
                        Err(error) => {
                            return Err(error);
                        },
                    };
                    self.snapshot = snapshot;
                    self.feature = self.feature + 1;
                    self.phase = Phase::Saved;
                    Ok(action)
                } else {
                    let (package, dependency, found, clean) = match &self.steps[self.at] {
                        Step::Dependency(task) => (
                            task.package_name.clone(),
                            task.dependency_name.clone(),
                            findings(&task.features, &self.to_be_disabled, &self.known_list),
                            match self.clean_level {
                                CleanLevel::Dependency => true,
                                _ => false,
                            },
                        ),
                        _ => (String::new(), String::new(), Vec::new(), false),
                    };
                    let list = keep_outside(&self.to_be_disabled, &self.known_list);
                    let notice = self.notice || has_known(&found);
                    let mut table: FeaturesMap = NameMap::new();
                    std::mem::swap(&mut self.found, &mut table);
                    record(&mut table, &package, &dependency, list);
                    self.found = table;
                    self.notice = notice;
                    self.phase = Phase::Next;
                    self.at = self.at + 1;
                    Ok(Action::Report { package, dependency, findings: found, clean })
                }
            },
            Phase::Done => Ok(Action::Finish { notice: self.notice }),
        }
    }

    /// Ends the trial at hand: the states from before the trial come back.
    fn end_trial(&mut self, document: &mut Document) -> (result: Result<Action, Error>)
        requires
            old(self)@.phase == Phase::Saved || old(self)@.phase == Phase::Checked,
        ensures
            final(self)@.wf(),
            match result {
                Ok(action) => old(self)@.ends_trial(
                    *old(document),
                    final(self)@,
                    *final(document),
                    action@,
                ),
                Err(_) => {
                    &&& old(self)@.cannot_end(*old(document))
                    &&& final(self)@ == old(self)@
                    &&& *final(document) == *old(document)
                },
            },
    {
        proof {
            use_type_invariant(&*self);
            assert(step_views(self.steps@)[self.at as int] == self.steps@[self.at as int]@);
        }
        let (package, dependency, action) = match &self.steps[self.at] {
            Step::Dependency(task) => (
                task.package,
                task.dependency,
                Action::Save {
                    package: task.package_name.clone(),
                    dependency: task.dependency_name.clone(),
                    feature: self.feature,
                    restored: true,
                },
            ),
            _ => (0, 0, Action::Finish { notice: false }),
        };
        match put_back(document, package, dependency, &self.snapshot) {
            Ok(_) => {
                self.phase = Phase::Restored;
                Ok(action)
            },
            Err(error) => Err(error),
        }
    }
}

} // verus!
