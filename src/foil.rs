//! The decisions of FOIL's sequential covering: which positives a theory still
//! has to cover, when to learn another clause, and, while a clause is learnt,
//! what it covers and when to stop refining it. Querying the database and the
//! scoring by FOIL gain are left to the caller, which hands back what they give.
use crate::clause::{
    Clause, ClauseModel, INSTANCE_VAR_NAME, adds_one_literal, clause_views, default_options,
    empty_clause, isa_ext, lemma_refinement_adds_one_literal, refinements, well_typed,
};
use crate::dataset::{
    Instance, contains_instance, count_covered, count_instances_in, instance_views,
    lemma_select_contains, lemma_select_len, select, select_instances,
};
use crate::language::{HypothesisLanguage, SchemaModel, SchemaType, has_key};
use vstd::prelude::*;

verus! {

/// The most clauses a theory gets.
pub const MAX_THEORY_LENGTH: usize = 20;

/// The most literals a learnt clause gets.
pub const MAX_CLAUSE_LENGTH: usize = 10;

/// The distinct instances of `rows` of class `class`, in the order they first come.
pub open spec fn distinct_of_class(rows: Seq<(Instance, bool)>, class: bool) -> Seq<Seq<u8>>
    decreases rows.len(),
{
    if rows.len() == 0 {
        Seq::empty()
    } else {
        let before = distinct_of_class(rows.drop_last(), class);
        if rows.last().1 == class && !before.contains(rows.last().0@) {
            before.push(rows.last().0@)
        } else {
            before
        }
    }
}

fn distinct_instances(rows: &Vec<(Instance, bool)>, class: bool) -> (r: Vec<Instance>)
    ensures
        instance_views(r@) == distinct_of_class(rows@, class),
{
    let mut r: Vec<Instance> = Vec::new();
    let mut i: usize = 0;
    assert(instance_views(r@) =~= Seq::<Seq<u8>>::empty());
    while i < rows.len()
        invariant
            i <= rows.len(),
            instance_views(r@) == distinct_of_class(rows@.take(i as int), class),
        decreases rows.len() - i,
    {
        assert(rows@.take(i + 1).drop_last() =~= rows@.take(i as int));
        assert(rows@.take(i + 1).last() == rows@[i as int]);
        if rows[i].1 == class && !contains_instance(&r, &rows[i].0) {
            let x = rows[i].0.clone();
            let ghost before = r@;
            r.push(x);
            assert(instance_views(r@) =~= instance_views(before).push(x@));
        }
        i = i + 1;
    }
    assert(rows@.take(i as int) =~= rows@);
    r
}

/// A FOIL learning task: the target type, the class attribute, the language, and
/// the positive and negative examples.
#[derive(Debug)]
pub struct FoilLearningTask {
    pub target_type: SchemaType,
    pub class_attribute_label: String,
    pub language: HypothesisLanguage,
    pub positive_examples: Vec<Instance>,
    pub negative_examples: Vec<Instance>,
}

impl FoilLearningTask {
    /// The task for the target type of this label, with the examples that the
    /// database gave as (instance, class) rows. None where the schema has no such
    /// type.
    pub fn from_rows(
        language: HypothesisLanguage,
        target_type_label: &str,
        class_attribute_label: String,
        rows: &Vec<(Instance, bool)>,
    ) -> (r: Option<FoilLearningTask>)
        ensures
            r is Some <==> has_key(language.schema@.subtypes, target_type_label@),
            match r {
                Some(t) => {
                    &&& t.target_type@ == target_type_label@
                    &&& t.class_attribute_label@ == class_attribute_label@
                    &&& t.language.schema@ == language.schema@
                    &&& instance_views(t.positive_examples@) == distinct_of_class(rows@, true)
                    &&& instance_views(t.negative_examples@) == distinct_of_class(rows@, false)
                },
                None => true,
            },
    {
        let target_type = match language.lookup_type(target_type_label) {
            Some(t) => t,
            None => {
                return None;
            },
        };
        let positive_examples = distinct_instances(rows, true);
        let negative_examples = distinct_instances(rows, false);
        Some(
            FoilLearningTask {
                target_type,
                class_attribute_label,
                language,
                positive_examples,
                negative_examples,
            },
        )
    }

    /// The clause a search starts from: `$instance_0 isa <target type>`.
    pub fn initial_clause(&self) -> (r: Clause)
        requires
            self.language.schema.wf(),
        ensures
            r@ == isa_ext(empty_clause(), self.language.schema@, INSTANCE_VAR_NAME@, self.target_type@),
            well_typed(r@, self.language.schema@),
    {
        Clause::new_from_isa(self.target_type.clone(), &self.language.schema)
    }
}

/// The state of sequential covering as values: the positives still uncovered,
/// the negatives, the clauses learnt, and, for the record, all the positives and
/// what each learnt clause covered.
pub struct FoilSearchModel {
    pub uncovered: Seq<Seq<u8>>,
    pub negatives: Seq<Seq<u8>>,
    pub theory: Seq<ClauseModel>,
    pub positives: Seq<Seq<u8>>,
    pub coverages: Seq<Seq<Seq<u8>>>,
}

/// Sequential covering holds its course: the theory is at most
/// `MAX_THEORY_LENGTH` clauses long; a positive is uncovered exactly when no learnt
/// clause covers it; and each learnt clause covered some positive that no earlier
/// clause covered.
pub open spec fn foil_search_wf(m: FoilSearchModel) -> bool {
    &&& m.theory.len() == m.coverages.len()
    &&& m.theory.len() <= MAX_THEORY_LENGTH
    &&& forall|x: Seq<u8>| #[trigger]
        m.uncovered.contains(x) <==> (m.positives.contains(x) && forall|j: int|
            0 <= j < m.coverages.len() ==> !(#[trigger] m.coverages[j]).contains(x))
    &&& forall|i: int| 0 <= i < m.coverages.len() ==> #[trigger] covers_new_positive(m, i)
}

/// The `i`-th learnt clause covered a positive that no earlier clause covered.
pub open spec fn covers_new_positive(m: FoilSearchModel, i: int) -> bool {
    exists|p: Seq<u8>|
        #![trigger m.coverages[i].contains(p)]
        m.positives.contains(p) && m.coverages[i].contains(p) && forall|j: int|
            0 <= j < i ==> !(#[trigger] m.coverages[j]).contains(p)
}

/// Sequential covering: the positives still uncovered, the negatives, and the
/// clauses learnt so far.
pub struct FoilSearch {
    uncovered: Vec<Instance>,
    negatives: Vec<Instance>,
    theory: Vec<Clause>,
    positives: Ghost<Seq<Seq<u8>>>,
    coverages: Ghost<Seq<Seq<Seq<u8>>>>,
}

impl View for FoilSearch {
    type V = FoilSearchModel;

    closed spec fn view(&self) -> FoilSearchModel {
        FoilSearchModel {
            uncovered: instance_views(self.uncovered@),
            negatives: instance_views(self.negatives@),
            theory: clause_views(self.theory@),
            positives: self.positives@,
            coverages: self.coverages@,
        }
    }
}

fn clone_instances(s: &Vec<Instance>) -> (r: Vec<Instance>)
    ensures
        instance_views(r@) == instance_views(s@),
{
    let mut r: Vec<Instance> = Vec::new();
    let mut i: usize = 0;
    while i < s.len()
        invariant
            i <= s.len(),
            r@.len() == i,
            forall|j: int| 0 <= j < i ==> (#[trigger] r@[j])@ == s@[j]@,
        decreases s.len() - i,
    {
        r.push(s[i].clone());
        i = i + 1;
    }
    assert(instance_views(r@) =~= instance_views(s@));
    r
}

impl FoilSearch {
    /// All positives uncovered; no clauses yet.
    pub fn start(task: &FoilLearningTask) -> (r: FoilSearch)
        ensures
            foil_search_wf(r@),
            r@.uncovered == instance_views(task.positive_examples@),
            r@.positives == instance_views(task.positive_examples@),
            r@.negatives == instance_views(task.negative_examples@),
            r@.theory == Seq::<ClauseModel>::empty(),
    {
        let r = FoilSearch {
            uncovered: clone_instances(&task.positive_examples),
            negatives: clone_instances(&task.negative_examples),
            theory: Vec::new(),
            positives: Ghost(instance_views(task.positive_examples@)),
            coverages: Ghost(Seq::empty()),
        };
        assert(r@.theory =~= Seq::<ClauseModel>::empty());
        r
    }

    /// Whether to learn another clause: some positive is uncovered and the theory
    /// is shorter than `MAX_THEORY_LENGTH`.
    pub fn wants_clause(&self) -> (r: bool)
        ensures
            r == (self@.uncovered.len() > 0 && self@.theory.len() < MAX_THEORY_LENGTH),
    {
        self.uncovered.len() > 0 && self.theory.len() < MAX_THEORY_LENGTH
    }

    pub fn uncovered(&self) -> (r: &Vec<Instance>)
        ensures
            instance_views(r@) == self@.uncovered,
    {
        &self.uncovered
    }

    pub fn negatives(&self) -> (r: &Vec<Instance>)
        ensures
            instance_views(r@) == self@.negatives,
    {
        &self.negatives
    }

    /// Accepts a learnt clause, given the instances it covers, if it covers some
    /// uncovered positive: adds it to the theory and takes what it covers out of
    /// the uncovered positives. A clause that covers none is refused, and nothing
    /// changes. Says whether the clause was accepted.
    pub fn accept(&mut self, clause: Clause, covered: &Vec<Instance>) -> (r: bool)
        requires
            foil_search_wf(old(self)@),
            old(self)@.theory.len() < MAX_THEORY_LENGTH,
        ensures
            foil_search_wf(final(self)@),
            r == (count_covered(old(self)@.uncovered, instance_views(covered@)) > 0),
            final(self)@.negatives == old(self)@.negatives,
            final(self)@.positives == old(self)@.positives,
            r ==> final(self)@.uncovered == select(
                old(self)@.uncovered,
                instance_views(covered@),
                false,
            ),
            r ==> final(self)@.theory == old(self)@.theory.push(clause@),
            r ==> final(self)@.coverages == old(self)@.coverages.push(instance_views(covered@)),
            r ==> final(self)@.uncovered.len() < old(self)@.uncovered.len(),
            !r ==> final(self)@ == old(self)@,
    {
        let ghost m = self@;
        let ghost u = self@.uncovered;
        let ghost cv = instance_views(covered@);
        let n = count_instances_in(&self.uncovered, covered);
        if n == 0 {
            return false;
        }
        let remaining = select_instances(&self.uncovered, covered, false);
        proof {
            lemma_select_len(u, cv, false);
            lemma_covered_progress(u, cv);
            lemma_select_contains(u, cv, false);
            lemma_select_contains(u, cv, true);
        }
        let ghost p = select(u, cv, true)[0];
        assert(select(u, cv, true).contains(p));
        self.uncovered = remaining;
        let ghost before = self.theory@;
        self.theory.push(clause);
        self.coverages = Ghost(self.coverages@.push(cv));
        assert(clause_views(self.theory@) =~= clause_views(before).push(clause@));
        proof {
            let n2 = self@;
            assert forall|x: Seq<u8>| #[trigger]
                n2.uncovered.contains(x) <==> (n2.positives.contains(x) && forall|j: int|
                    0 <= j < n2.coverages.len() ==> !(#[trigger] n2.coverages[j]).contains(x)) by {
                if n2.positives.contains(x) && (forall|j: int|
                    0 <= j < n2.coverages.len() ==> !(#[trigger] n2.coverages[j]).contains(x)) {
                    assert forall|j: int| 0 <= j < m.coverages.len() implies !(
                    #[trigger] m.coverages[j]).contains(x) by {
                        assert(n2.coverages[j] == m.coverages[j]);
                    }
                    assert(n2.coverages[m.coverages.len() as int] == cv);
                }
                if n2.uncovered.contains(x) {
                    assert forall|j: int| 0 <= j < n2.coverages.len() implies !(
                    #[trigger] n2.coverages[j]).contains(x) by {
                        if j < m.coverages.len() {
                            assert(n2.coverages[j] == m.coverages[j]);
                        }
                    }
                }
            }
            assert forall|i: int| 0 <= i < n2.coverages.len() implies #[trigger] covers_new_positive(n2, i) by {
                if i < m.coverages.len() {
                    assert(covers_new_positive(m, i));
                    let q = choose|q: Seq<u8>|
                        #![trigger m.coverages[i].contains(q)]
                        m.positives.contains(q) && m.coverages[i].contains(q) && forall|j: int|
                            0 <= j < i ==> !(#[trigger] m.coverages[j]).contains(q);
                    assert(n2.coverages[i] == m.coverages[i]);
                    assert forall|j: int| 0 <= j < i implies !(#[trigger] n2.coverages[j]).contains(q) by {
                        assert(n2.coverages[j] == m.coverages[j]);
                    }
                } else {
                    assert(u.contains(p));
                    assert(n2.coverages[i] == cv);
                    assert forall|j: int| 0 <= j < i implies !(#[trigger] n2.coverages[j]).contains(p) by {
                        assert(n2.coverages[j] == m.coverages[j]);
                    }
                }
            }
        }
        true
    }

    /// The clauses learnt, in order.
    pub fn into_theory(self) -> (r: Vec<Clause>)
        ensures
            clause_views(r@) == self@.theory,
    {
        self.theory
    }
}

/// Each clause of the theory covered some positive that no earlier clause
/// covered, so each one shrank the uncovered positives; and the theory is at most
/// `MAX_THEORY_LENGTH` clauses long.
pub proof fn lemma_each_clause_covers_new_positive(m: FoilSearchModel, i: int)
    requires
        foil_search_wf(m),
        0 <= i < m.theory.len(),
    ensures
        m.theory.len() <= MAX_THEORY_LENGTH,
        exists|p: Seq<u8>|
            #![trigger m.coverages[i].contains(p)]
            m.positives.contains(p) && m.coverages[i].contains(p) && forall|j: int|
                0 <= j < i ==> !(#[trigger] m.coverages[j]).contains(p),
{
    assert(covers_new_positive(m, i));
}

/// Where what a clause covers takes in an uncovered positive, fewer positives are
/// uncovered after it: the measure that sequential covering decreases.
pub proof fn lemma_covered_progress(uncovered: Seq<Seq<u8>>, covered: Seq<Seq<u8>>)
    ensures
        count_covered(uncovered, covered) > 0 ==> select(uncovered, covered, false).len()
            < uncovered.len(),
{
    lemma_select_len(uncovered, covered, false);
}

/// Counts of what a candidate refinement covers among the target examples.
#[derive(Clone, Copy, Debug, PartialEq, Eq, Structural)]
pub struct CoverageCounts {
    pub positive: usize,
    pub negative: usize,
}

/// The clause that following the refinement indices `steps` reaches from `c`: at
/// each step, the refinement of that index among the clause's refinements.
pub open spec fn follow(c: ClauseModel, s: SchemaModel, steps: Seq<int>) -> ClauseModel
    decreases steps.len(),
{
    if steps.len() == 0 {
        c
    } else {
        refinements(follow(c, s, steps.drop_last()), s)[steps.last()]
    }
}

/// The state of learning one clause as values.
pub struct ClauseSearchModel {
    pub clause: ClauseModel,
    pub initial: ClauseModel,
    pub steps: Seq<int>,
    pub schema: SchemaModel,
    pub target_positives: Seq<Seq<u8>>,
    pub target_negatives: Seq<Seq<u8>>,
    pub covered_positives: Seq<Seq<u8>>,
    pub covered_negatives: Seq<Seq<u8>>,
    pub observed: bool,
    pub last_coverage: Seq<Seq<u8>>,
}

/// Learning a clause holds its course: the clause is the initial one refined step
/// by step, with the initial literals first and one literal more per step, at most
/// `MAX_CLAUSE_LENGTH` literals once refined; and each covered positive is a target
/// positive that, once the clause was observed, it covered.
pub open spec fn clause_search_wf(m: ClauseSearchModel) -> bool {
    &&& m.clause == follow(m.initial, m.schema, m.steps)
    &&& well_typed(m.clause, m.schema)
    &&& m.clause.literals.len() == m.initial.literals.len() + m.steps.len()
    &&& m.clause.literals.take(m.initial.literals.len() as int) == m.initial.literals
    &&& m.steps.len() > 0 ==> m.clause.literals.len() <= MAX_CLAUSE_LENGTH
    &&& forall|x: Seq<u8>| #[trigger]
        m.covered_positives.contains(x) ==> m.target_positives.contains(x) && (m.observed
            ==> m.last_coverage.contains(x))
}

/// Learning one clause: the clause so far, the examples it is learnt for, and
/// those of them that the clause covers.
pub struct ClauseSearch {
    clause: Clause,
    target_positives: Vec<Instance>,
    target_negatives: Vec<Instance>,
    covered_positives: Vec<Instance>,
    covered_negatives: Vec<Instance>,
    observed: bool,
    initial: Ghost<ClauseModel>,
    steps: Ghost<Seq<int>>,
    schema: Ghost<SchemaModel>,
    last_coverage: Ghost<Seq<Seq<u8>>>,
}

impl View for ClauseSearch {
    type V = ClauseSearchModel;

    closed spec fn view(&self) -> ClauseSearchModel {
        ClauseSearchModel {
            clause: self.clause@,
            initial: self.initial@,
            steps: self.steps@,
            schema: self.schema@,
            target_positives: instance_views(self.target_positives@),
            target_negatives: instance_views(self.target_negatives@),
            covered_positives: instance_views(self.covered_positives@),
            covered_negatives: instance_views(self.covered_negatives@),
            observed: self.observed,
            last_coverage: self.last_coverage@,
        }
    }
}

impl ClauseSearch {
    /// Starts from `initial`, taken to cover all the target examples.
    pub fn start(
        initial: Clause,
        positives: &Vec<Instance>,
        negatives: &Vec<Instance>,
        language: &HypothesisLanguage,
    ) -> (r: ClauseSearch)
        requires
            well_typed(initial@, language.schema@),
        ensures
            clause_search_wf(r@),
            r@.clause == initial@,
            r@.initial == initial@,
            r@.steps == Seq::<int>::empty(),
            r@.schema == language.schema@,
            r@.target_positives == instance_views(positives@),
            r@.target_negatives == instance_views(negatives@),
            r@.covered_positives == instance_views(positives@),
            r@.covered_negatives == instance_views(negatives@),
            !r@.observed,
    {
        let ghost init = initial@;
        let r = ClauseSearch {
            clause: initial,
            target_positives: clone_instances(positives),
            target_negatives: clone_instances(negatives),
            covered_positives: clone_instances(positives),
            covered_negatives: clone_instances(negatives),
            observed: false,
            initial: Ghost(init),
            steps: Ghost(Seq::empty()),
            schema: Ghost(language.schema@),
            last_coverage: Ghost(Seq::empty()),
        };
        assert(init.literals.take(init.literals.len() as int) =~= init.literals);
        r
    }

    pub fn clause(&self) -> (r: &Clause)
        ensures
            r@ == self@.clause,
    {
        &self.clause
    }

    /// Whether to refine further: the clause is shorter than `MAX_CLAUSE_LENGTH` and
    /// still covers some positive and some negative.
    pub fn wants_refinement(&self) -> (r: bool)
        ensures
            r == (self@.clause.literals.len() < MAX_CLAUSE_LENGTH && self@.covered_negatives.len() > 0
                && self@.covered_positives.len() > 0),
    {
        self.clause.len() < MAX_CLAUSE_LENGTH && self.covered_negatives.len() > 0
            && self.covered_positives.len() > 0
    }

    /// Keeps, of the covered examples, those that the current clause covers.
    pub fn observe_coverage(&mut self, covered: &Vec<Instance>)
        requires
            clause_search_wf(old(self)@),
        ensures
            clause_search_wf(final(self)@),
            final(self)@.clause == old(self)@.clause,
            final(self)@.initial == old(self)@.initial,
            final(self)@.steps == old(self)@.steps,
            final(self)@.schema == old(self)@.schema,
            final(self)@.target_positives == old(self)@.target_positives,
            final(self)@.target_negatives == old(self)@.target_negatives,
            final(self)@.covered_positives == select(
                old(self)@.covered_positives,
                instance_views(covered@),
                true,
            ),
            final(self)@.covered_negatives == select(
                old(self)@.covered_negatives,
                instance_views(covered@),
                true,
            ),
            final(self)@.observed,
            final(self)@.last_coverage == instance_views(covered@),
    {
        let ghost cp = self@.covered_positives;
        proof {
            lemma_select_contains(cp, instance_views(covered@), true);
        }
        self.covered_positives = select_instances(&self.covered_positives, covered, true);
        self.covered_negatives = select_instances(&self.covered_negatives, covered, true);
        self.observed = true;
        self.last_coverage = Ghost(instance_views(covered@));
    }

    /// How many covered positives and negatives the current clause has.
    pub fn coverage_counts(&self) -> (r: CoverageCounts)
        ensures
            r.positive == self@.covered_positives.len(),
            r.negative == self@.covered_negatives.len(),
    {
        CoverageCounts {
            positive: self.covered_positives.len(),
            negative: self.covered_negatives.len(),
        }
    }

    /// How many target positives and negatives a candidate covers, given the
    /// instances that it covers.
    pub fn candidate_counts(&self, covered: &Vec<Instance>) -> (r: CoverageCounts)
        ensures
            r.positive == count_covered(self@.target_positives, instance_views(covered@)),
            r.negative == count_covered(self@.target_negatives, instance_views(covered@)),
    {
        CoverageCounts {
            positive: count_instances_in(&self.target_positives, covered),
            negative: count_instances_in(&self.target_negatives, covered),
        }
    }

    /// The counts of a candidate worth scoring: one that covers some target
    /// positive. None for a candidate that covers none.
    pub fn viable_counts(&self, covered: &Vec<Instance>) -> (r: Option<CoverageCounts>)
        ensures
            match r {
                Some(c) => c.positive > 0 && c.positive == count_covered(
                    self@.target_positives,
                    instance_views(covered@),
                ) && c.negative == count_covered(self@.target_negatives, instance_views(covered@)),
                None => count_covered(self@.target_positives, instance_views(covered@)) == 0,
            },
    {
        let counts = self.candidate_counts(covered);
        if counts.positive == 0 {
            None
        } else {
            Some(counts)
        }
    }

    /// Continues from the refinement at `index` among the current clause's
    /// refinements (those `Clause::refine` gives).
    pub fn adopt(&mut self, language: &HypothesisLanguage, index: usize)
        requires
            clause_search_wf(old(self)@),
            language.schema.wf(),
            language.schema@ == old(self)@.schema,
            old(self)@.clause.literals.len() < MAX_CLAUSE_LENGTH,
            index < refinements(old(self)@.clause, old(self)@.schema).len(),
        ensures
            clause_search_wf(final(self)@),
            final(self)@.clause == refinements(old(self)@.clause, old(self)@.schema)[index as int],
            final(self)@.steps == old(self)@.steps.push(index as int),
            final(self)@.initial == old(self)@.initial,
            final(self)@.schema == old(self)@.schema,
            final(self)@.target_positives == old(self)@.target_positives,
            final(self)@.target_negatives == old(self)@.target_negatives,
            final(self)@.covered_positives == old(self)@.covered_positives,
            final(self)@.covered_negatives == old(self)@.covered_negatives,
            !final(self)@.observed,
    {
        let ghost m = self@;
        let mut refined = self.clause.refine(language);
        assert(clause_views(refined@)[index as int] == refined@[index as int]@);
        assert(well_typed(clause_views(refined@)[index as int], m.schema));
        let next = refined.remove(index);
        proof {
            lemma_refinement_adds_one_literal(m.clause, m.schema, default_options());
            assert(adds_one_literal(m.clause, refinements(m.clause, m.schema)[index as int]));
            let steps = m.steps.push(index as int);
            assert(steps.drop_last() =~= m.steps);
            let nl = next@.literals;
            assert(nl.take(m.initial.literals.len() as int) =~= nl.take(
                m.clause.literals.len() as int,
            ).take(m.initial.literals.len() as int));
        }
        self.clause = next;
        self.steps = Ghost(self.steps@.push(index as int));
        self.observed = false;
        proof {
            let n = self@;
            assert(n.steps.drop_last() =~= m.steps);
            assert(n.steps.last() == index as int);
            assert(n.clause == refinements(m.clause, m.schema)[index as int]);
            assert(n.clause == follow(n.initial, n.schema, n.steps));
            assert(well_typed(n.clause, n.schema));
            assert(n.clause.literals.len() == n.initial.literals.len() + n.steps.len());
            assert(n.clause.literals.take(n.initial.literals.len() as int) == n.initial.literals);
            assert(n.clause.literals.len() <= MAX_CLAUSE_LENGTH);
            assert(n.covered_positives == m.covered_positives);
            assert(n.target_positives == m.target_positives);
            assert forall|x: Seq<u8>| #[trigger] n.covered_positives.contains(x) implies n.target_positives.contains(x) by {
                assert(m.covered_positives.contains(x));
            }
        }
    }

    /// The clause learnt, or None where it covers no target positive. A clause
    /// given back covers, as last observed, some target positive.
    pub fn finish(self) -> (r: Option<Clause>)
        requires
            clause_search_wf(self@),
            self@.observed,
        ensures
            r is None <==> self@.covered_positives.len() == 0,
            match r {
                Some(c) => {
                    &&& c@ == self@.clause
                    &&& c@ == follow(self@.initial, self@.schema, self@.steps)
                    &&& c@.literals.take(self@.initial.literals.len() as int) == self@.initial.literals
                    &&& (self@.steps.len() > 0 ==> c@.literals.len() <= MAX_CLAUSE_LENGTH)
                    &&& exists|p: Seq<u8>| #[trigger]
                        self@.target_positives.contains(p) && self@.last_coverage.contains(p)
                },
                None => true,
            },
    {
        if self.covered_positives.len() == 0 {
            None
        } else {
            let ghost p = self@.covered_positives[0];
            assert(self@.covered_positives.contains(p));
            Some(self.clause)
        }
    }
}

} // verus!
