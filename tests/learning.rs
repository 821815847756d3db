use rusty_foil::clause::Clause;
use rusty_foil::dataset::{Dataset, Example, Instance};
use rusty_foil::foil::{ClauseSearch, CoverageCounts, FoilLearningTask, FoilSearch, MAX_THEORY_LENGTH};
use rusty_foil::language::{HypothesisLanguage, Schema, SchemaType, TypeKind};
use rusty_foil::tilde::{ClassificationTask, LeafNode, TildeTree, MAX_LOOKAHEAD};

fn t(kind: TypeKind, label: &str) -> SchemaType {
    SchemaType::new(kind, label.to_owned())
}

fn family_language() -> HypothesisLanguage {
    let owns = vec![
        (t(TypeKind::Entity, "person"), t(TypeKind::Attribute, "name")),
        (t(TypeKind::Entity, "person"), t(TypeKind::Attribute, "age")),
        (t(TypeKind::Entity, "company"), t(TypeKind::Attribute, "company-name")),
    ];
    let relates = vec![
        (t(TypeKind::Relation, "parenthood"), t(TypeKind::Role, "parenthood:parent")),
        (t(TypeKind::Relation, "parenthood"), t(TypeKind::Role, "parenthood:child")),
        (t(TypeKind::Relation, "employment"), t(TypeKind::Role, "employment:employer")),
        (t(TypeKind::Relation, "employment"), t(TypeKind::Role, "employment:employee")),
    ];
    let plays = vec![
        (t(TypeKind::Entity, "person"), t(TypeKind::Role, "employment:employee")),
        (t(TypeKind::Entity, "person"), t(TypeKind::Role, "parenthood:parent")),
        (t(TypeKind::Entity, "person"), t(TypeKind::Role, "parenthood:child")),
        (t(TypeKind::Entity, "company"), t(TypeKind::Role, "employment:employer")),
    ];
    let sub = vec![
        (t(TypeKind::Entity, "person"), t(TypeKind::Entity, "person")),
        (t(TypeKind::Entity, "company"), t(TypeKind::Entity, "company")),
    ];
    let schema = Schema::from_edges(&owns, &relates, &plays, &sub, &Vec::new()).unwrap();
    HypothesisLanguage { schema }
}

fn inst(n: u8) -> Instance {
    Instance::new(vec![n])
}

fn ids(v: &[Instance]) -> Vec<u8> {
    v.iter().map(|i| i.iid()[0]).collect()
}

// Persons 1 and 2 are parents (of 3); 3 is a child; 4 is neither.
fn family_oracle(clause: &Clause) -> Vec<Instance> {
    let mut covered: Vec<u8> = vec![1, 2, 3, 4];
    for line in clause.to_typeql().split(";\n") {
        if line.contains("(parent: $instance_0)") {
            covered.retain(|x| [1, 2].contains(x));
        } else if line.contains("(child: $instance_0)") {
            covered.retain(|x| *x == 3);
        } else if line.contains("(employee: $instance_0)") {
            covered.clear();
        }
    }
    covered.into_iter().map(inst).collect()
}

fn empty_oracle(_clause: &Clause) -> Vec<Instance> {
    Vec::new()
}

fn foil_gain(old: CoverageCounts, new: CoverageCounts) -> f64 {
    let (p_old, n_old) = (old.positive as f64, old.negative as f64);
    let (p_new, n_new) = (new.positive as f64, new.negative as f64);
    if p_new == 0.0 || p_old == 0.0 {
        return f64::NEG_INFINITY;
    }
    p_new * ((p_new / (p_new + n_new)).log2() - (p_old / (p_old + n_old)).log2())
}

fn learn_clause(
    task: &FoilLearningTask,
    search: &FoilSearch,
    oracle: &dyn Fn(&Clause) -> Vec<Instance>,
) -> Option<Clause> {
    let mut cs =
        ClauseSearch::start(task.initial_clause(), search.uncovered(), search.negatives(), &task.language);
    loop {
        cs.observe_coverage(&oracle(cs.clause()));
        if !cs.wants_refinement() {
            break;
        }
        let old = cs.coverage_counts();
        let mut best: Option<usize> = None;
        let mut best_gain = f64::NEG_INFINITY;
        for (index, refinement) in cs.clause().refine(&task.language).iter().enumerate() {
            let Some(counts) = cs.viable_counts(&oracle(refinement)) else { continue };
            let gain = foil_gain(old, counts);
            if gain > best_gain {
                best_gain = gain;
                best = Some(index);
            }
        }
        match best {
            Some(index) => cs.adopt(&task.language, index),
            None => break,
        }
    }
    cs.finish()
}

fn run_foil(task: &FoilLearningTask, oracle: &dyn Fn(&Clause) -> Vec<Instance>) -> Vec<Clause> {
    let mut search = FoilSearch::start(task);
    while search.wants_clause() {
        let Some(clause) = learn_clause(task, &search, oracle) else { break };
        let covered = oracle(&clause);
        assert!(search.accept(clause, &covered));
    }
    search.into_theory()
}

fn family_rows(classes: [bool; 4]) -> Vec<(Instance, bool)> {
    (1..=4).map(|n| (inst(n), classes[n as usize - 1])).collect()
}

#[test]
fn task_partitions_examples() {
    let rows = vec![(inst(1), true), (inst(3), false), (inst(1), true), (inst(2), true), (inst(4), false)];
    let task = FoilLearningTask::from_rows(family_language(), "person", "is-parent".to_owned(), &rows).unwrap();
    assert_eq!(ids(&task.positive_examples), vec![1, 2]);
    assert_eq!(ids(&task.negative_examples), vec![3, 4]);
    assert_eq!(task.target_type.label(), "person");
    assert!(FoilLearningTask::from_rows(family_language(), "animal", "c".to_owned(), &rows).is_none());
}

#[test]
fn foil_learns_parent_clause() {
    let task = FoilLearningTask::from_rows(
        family_language(),
        "person",
        "is-parent".to_owned(),
        &family_rows([true, true, false, false]),
    )
    .unwrap();
    let theory = run_foil(&task, &family_oracle);
    assert_eq!(theory.len(), 1);
    assert_eq!(
        theory[0].to_typeql(),
        "$instance_0 isa person;\n$parenthood__parent_1_rel links (parent: $instance_0)"
    );
    let covered = family_oracle(&theory[0]);
    assert_eq!(ids(&covered), vec![1, 2]);
}

#[test]
fn foil_with_all_positives_learns_one_clause() {
    let task = FoilLearningTask::from_rows(
        family_language(),
        "person",
        "is-parent".to_owned(),
        &family_rows([true, true, true, true]),
    )
    .unwrap();
    let theory = run_foil(&task, &family_oracle);
    assert_eq!(theory.len(), 1);
    assert_eq!(theory[0].to_typeql(), "$instance_0 isa person");
}

#[test]
fn foil_with_empty_oracle_learns_nothing() {
    let task = FoilLearningTask::from_rows(
        family_language(),
        "person",
        "is-parent".to_owned(),
        &family_rows([true, true, false, false]),
    )
    .unwrap();
    let search = FoilSearch::start(&task);
    assert!(learn_clause(&task, &search, &empty_oracle).is_none());
    let theory = run_foil(&task, &empty_oracle);
    assert!(theory.is_empty());
}

#[test]
fn accepting_a_clause_removes_covered_positives() {
    let task = FoilLearningTask::from_rows(
        family_language(),
        "person",
        "is-parent".to_owned(),
        &family_rows([true, true, true, false]),
    )
    .unwrap();
    let mut search = FoilSearch::start(&task);
    assert!(search.wants_clause());
    let clause = task.initial_clause();
    assert!(search.accept(clause, &vec![inst(2), inst(9)]));
    assert_eq!(ids(search.uncovered()), vec![1, 3]);
    assert!(!search.accept(task.initial_clause(), &vec![inst(4)]));
    assert!(!search.accept(task.initial_clause(), &vec![inst(2)]));
    assert_eq!(ids(search.uncovered()), vec![1, 3]);
    assert!(search.accept(task.initial_clause(), &vec![inst(3), inst(1)]));
    assert!(search.uncovered().is_empty());
    assert!(!search.wants_clause());
    assert_eq!(search.into_theory().len(), 2);
}

#[test]
fn theory_length_is_capped() {
    let rows: Vec<(Instance, bool)> = (1..=30).map(|n| (inst(n), true)).collect();
    let task = FoilLearningTask::from_rows(family_language(), "person", "is-parent".to_owned(), &rows).unwrap();
    let mut search = FoilSearch::start(&task);
    let mut n: u8 = 0;
    while search.wants_clause() {
        n += 1;
        assert!(search.accept(task.initial_clause(), &vec![inst(n)]));
    }
    assert_eq!(n as usize, MAX_THEORY_LENGTH);
    assert_eq!(search.uncovered().len(), 30 - MAX_THEORY_LENGTH);
    assert_eq!(search.into_theory().len(), MAX_THEORY_LENGTH);
}

#[test]
fn clause_search_counts_candidates() {
    let task = FoilLearningTask::from_rows(
        family_language(),
        "person",
        "is-parent".to_owned(),
        &family_rows([true, true, false, false]),
    )
    .unwrap();
    let mut cs = ClauseSearch::start(
        task.initial_clause(),
        &task.positive_examples,
        &task.negative_examples,
        &task.language,
    );
    let counts = cs.candidate_counts(&vec![inst(2), inst(3), inst(4), inst(7)]);
    assert_eq!(counts, CoverageCounts { positive: 1, negative: 2 });
    assert_eq!(cs.viable_counts(&vec![inst(2), inst(3)]), Some(CoverageCounts { positive: 1, negative: 1 }));
    assert_eq!(cs.viable_counts(&vec![inst(3), inst(4)]), None);
    cs.observe_coverage(&vec![inst(1), inst(3)]);
    assert_eq!(cs.coverage_counts(), CoverageCounts { positive: 1, negative: 1 });
    assert!(cs.wants_refinement());
    cs.observe_coverage(&vec![inst(1)]);
    assert!(!cs.wants_refinement());
    assert!(cs.finish().is_some());
}

fn example(n: u8, class: bool) -> Example {
    Example { instance: inst(n), class }
}

fn family_dataset(classes: [bool; 4]) -> Dataset {
    Dataset { examples: (1..=4).map(|n| example(n, classes[n as usize - 1])).collect() }
}

fn entropy(d: &Dataset) -> f64 {
    let c = d.count_by_class();
    let n = (c.positive + c.negative) as f64;
    if n == 0.0 {
        return 0.0;
    }
    [c.positive, c.negative]
        .iter()
        .filter(|x| **x > 0)
        .map(|x| {
            let p = *x as f64 / n;
            -p * p.log2()
        })
        .sum()
}

fn weighted_information_gain(before: &Dataset, left: &Dataset, right: &Dataset) -> f64 {
    let after = (left.len() as f64 * entropy(left) + right.len() as f64 * entropy(right)) / before.len() as f64;
    entropy(before) - after
}

#[test]
fn dataset_counts_and_majority() {
    let d = family_dataset([true, false, false, true]);
    let c = d.count_by_class();
    assert_eq!((c.positive, c.negative), (2, 2));
    assert_eq!(d.majority_class(), Some(true));
    assert!(!d.is_homogeneous());
    let neg = family_dataset([false, false, true, false]);
    assert_eq!(neg.majority_class(), Some(false));
    let empty = Dataset { examples: Vec::new() };
    assert_eq!(empty.majority_class(), None);
    assert!(empty.is_homogeneous());
    assert!(family_dataset([true, true, true, true]).is_homogeneous());
    assert_eq!(entropy(&family_dataset([true, true, true, true])), 0.0);
    assert_eq!(entropy(&family_dataset([false, false, false, false])), 0.0);
}

#[test]
fn dataset_split_keeps_order() {
    let d = family_dataset([true, false, false, true]);
    let (left, right) = d.split_on(&vec![inst(4), inst(2), inst(9)]);
    let l: Vec<u8> = left.examples.iter().map(|e| e.instance.iid()[0]).collect();
    let r: Vec<u8> = right.examples.iter().map(|e| e.instance.iid()[0]).collect();
    assert_eq!(l, vec![2, 4]);
    assert_eq!(r, vec![1, 3]);
    let gain = weighted_information_gain(&d, &left, &right);
    assert!(gain >= 0.0);
}

#[test]
fn tilde_splits_on_parent_role() {
    let language = family_language();
    let person = language.lookup_type("person").unwrap();
    let prefix = Clause::new_from_isa(person, &language.schema);
    let leaf = LeafNode::new(prefix, family_dataset([true, true, false, false]));
    assert!(!leaf.too_few_examples());
    assert!(!leaf.dataset.is_homogeneous());
    let mut best: Option<(f64, usize, Vec<Instance>)> = None;
    let candidates = leaf.candidates(&language, 1);
    for (index, refined) in candidates.iter().enumerate() {
        let covered = family_oracle(refined);
        let (l, r) = leaf.dataset.split_on(&covered);
        let gain = weighted_information_gain(&leaf.dataset, &l, &r);
        if best.as_ref().map(|b| gain > b.0).unwrap_or(true) {
            best = Some((gain, index, covered));
        }
    }
    let (gain, index, covered) = best.unwrap();
    assert_eq!(gain, 1.0);
    assert_eq!(index, 2);
    let tree = leaf.split(&language, 1, candidates, index, &covered);
    let TildeTree::Inner(inner) = &tree else { panic!("expected a split") };
    let TildeTree::Leaf(left) = inner.left.as_ref() else { panic!("expected a leaf") };
    let TildeTree::Leaf(right) = inner.right.as_ref() else { panic!("expected a leaf") };
    assert_eq!(left.target(), Some(true));
    assert_eq!(right.target(), Some(false));
    assert!(left.dataset.is_homogeneous() && right.dataset.is_homogeneous());
    assert!(left.too_few_examples() && right.too_few_examples());
    assert_eq!(
        tree.fmt_with_indent(0),
        [
            "(samples=4, +: 2, -: 2) INNER [\n",
            "  $instance_0 isa person\n",
            "]\n",
            "  if true:\n",
            "    (samples=2, +: 2, -: 0) LEAF [\n",
            "      $instance_0 isa person;\n",
            "      $parenthood__parent_1_rel links (parent: $instance_0)\n",
            "    ]\n",
            "\n",
            "  if false:\n",
            "    (samples=2, +: 0, -: 2) LEAF [\n",
            "      $instance_0 isa person\n",
            "    ]\n",
            "}\n",
        ]
        .concat()
    );
}

#[test]
fn split_that_separates_nothing_keeps_the_leaf() {
    let language = family_language();
    let person = language.lookup_type("person").unwrap();
    let prefix = Clause::new_from_isa(person, &language.schema);
    let leaf = LeafNode::new(prefix.clone(), family_dataset([true, true, false, false]));
    let candidates = leaf.candidates(&language, 1);
    let tree = leaf.split(&language, 1, candidates, 0, &vec![inst(1), inst(2), inst(3), inst(4)]);
    let TildeTree::Leaf(same) = &tree else { panic!("expected the leaf back") };
    assert_eq!(same.dataset.len(), 4);
    assert_eq!(same.test_prefix.to_typeql(), "$instance_0 isa person");
    let leaf = LeafNode::new(prefix, family_dataset([true, true, false, false]));
    let candidates = leaf.candidates(&language, 1);
    let tree = leaf.split(&language, 1, candidates, 1, &vec![inst(1), inst(2), inst(3)]);
    let TildeTree::Inner(inner) = &tree else { panic!("expected a split") };
    let TildeTree::Leaf(l) = inner.left.as_ref() else { panic!() };
    let TildeTree::Leaf(r) = inner.right.as_ref() else { panic!() };
    assert_eq!((l.dataset.len(), r.dataset.len()), (3, 1));
    assert_eq!(
        l.test_prefix.to_typeql(),
        "$instance_0 isa person;\n$parenthood__child_1_rel links (child: $instance_0)"
    );
    assert_eq!(r.test_prefix.to_typeql(), "$instance_0 isa person");
}

#[test]
fn homogeneous_leaf_stays_a_leaf() {
    let language = family_language();
    let person = language.lookup_type("person").unwrap();
    let prefix = Clause::new_from_isa(person, &language.schema);
    let leaf = LeafNode::new(prefix, family_dataset([true, true, true, true]));
    assert!(leaf.dataset.is_homogeneous());
    assert_eq!(entropy(&leaf.dataset), 0.0);
    assert_eq!(leaf.target(), Some(true));
    let tree = TildeTree::Leaf(leaf);
    assert_eq!(tree.fmt_with_indent(1), "  (samples=4, +: 4, -: 0) LEAF [\n    $instance_0 isa person\n  ]\n");
}

#[test]
fn lookahead_reaches_deeper_refinements() {
    let language = family_language();
    let person = language.lookup_type("person").unwrap();
    let prefix = Clause::new_from_isa(person, &language.schema);
    let leaf = LeafNode::new(prefix, family_dataset([true, true, false, false]));
    let one = leaf.candidates(&language, 1);
    let two = leaf.candidates(&language, 2);
    let expected: usize = one.iter().map(|c| c.refine(&language).len()).sum();
    assert_eq!(two.len(), expected);
    assert!(two.iter().all(|c| c.len() == 3));
    assert!(MAX_LOOKAHEAD >= 2);
}

#[test]
fn classification_task_starts_from_target() {
    let language = family_language();
    let dataset = family_dataset([true, false, true, false]);
    assert!(ClassificationTask::new(&language, "person", "is-parent", dataset).is_none());
    let dataset = family_dataset([true, false, true, false]);
    let task = ClassificationTask::new(&language, "person", "company", dataset).unwrap();
    assert_eq!(task.target_type.label(), "person");
    assert_eq!(task.dataset.len(), 4);
    assert_eq!(task.initial_clause(&language).to_typeql(), "$instance_0 isa person");
}
