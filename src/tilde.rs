//! TILDE's decision trees: nodes with the clause true along their path and the
//! examples that reach them, the candidate tests of a node up to a lookahead, and
//! how a node splits. The database queries and the entropy-based scoring of
//! candidates are left to the caller.
use crate::clause::{
    Clause, ClauseModel, INSTANCE_VAR_NAME, all_wf, clause_views, empty_clause, well_typed,
    indented_clause_text, isa_ext, refinements,
};
use crate::dataset::{Dataset, Instance, class_count, instance_views, lemma_split_len, split_part};
use crate::language::{HypothesisLanguage, SchemaModel, SchemaType, has_key};
use crate::text::{decimal, decimal_text, indent, indent_text};
use vstd::prelude::*;

verus! {

/// Nodes with fewer examples than this are not split.
pub const MIN_SPLIT_EXAMPLES: usize = 4;

/// The most refinement steps a candidate test takes from a node's clause.
pub const MAX_LOOKAHEAD: usize = 3;

/// The clauses `k` successive refinements reach from `c`, in order.
pub open spec fn refined_to(c: ClauseModel, s: SchemaModel, k: nat) -> Seq<ClauseModel>
    decreases k, 0nat,
{
    if k <= 1 {
        refinements(c, s)
    } else {
        refined_all(refinements(c, s), s, (k - 1) as nat)
    }
}

/// For each clause of `cs`, in order, the clauses `k` refinements reach from it.
pub open spec fn refined_all(cs: Seq<ClauseModel>, s: SchemaModel, k: nat) -> Seq<ClauseModel>
    decreases k, cs.len(),
{
    if cs.len() == 0 {
        Seq::empty()
    } else {
        refined_all(cs.drop_last(), s, k) + refined_to(cs.last(), s, k)
    }
}

/// Appends to `collect` the clauses that `depth` successive refinements reach
/// from `clause`.
pub fn refine_to_length(
    clause: &Clause,
    language: &HypothesisLanguage,
    depth: usize,
    collect: &mut Vec<Clause>,
)
    requires
        well_typed(clause@, language.schema@),
        language.schema.wf(),
        depth >= 1,
        all_wf(clause_views(old(collect)@), language.schema@),
    ensures
        clause_views(final(collect)@) == clause_views(old(collect)@) + refined_to(
            clause@,
            language.schema@,
            depth as nat,
        ),
        all_wf(clause_views(final(collect)@), language.schema@),
    decreases depth,
{
    let ghost s = language.schema@;
    let ghost start = clause_views(collect@);
    let refined = clause.refine(language);
    if depth == 1 {
        let mut i: usize = 0;
        assert(start + clause_views(refined@).take(0) =~= start);
        while i < refined.len()
            invariant
                i <= refined.len(),
                all_wf(clause_views(refined@), language.schema@),
                clause_views(collect@) == start + clause_views(refined@).take(i as int),
                all_wf(clause_views(collect@), language.schema@),
            decreases refined.len() - i,
        {
            let c = refined[i].clone();
            let ghost before = collect@;
            collect.push(c);
            assert(clause_views(collect@) =~= clause_views(before).push(c@));
            assert(clause_views(refined@).take(i + 1) =~= clause_views(refined@).take(i as int).push(
                clause_views(refined@)[i as int],
            ));
            assert(well_typed(clause_views(refined@)[i as int], language.schema@));
            assert forall|j: int| 0 <= j < clause_views(collect@).len() implies well_typed(
                #[trigger] clause_views(collect@)[j],
                language.schema@,
            ) by {
                if j < before.len() {
                    assert(clause_views(collect@)[j] == clause_views(before)[j]);
                }
            }
            i = i + 1;
        }
        assert(clause_views(refined@).take(i as int) =~= clause_views(refined@));
    } else {
        let ghost cs = clause_views(refined@);
        let mut i: usize = 0;
        assert(cs.take(0) =~= Seq::<ClauseModel>::empty());
        assert(start + Seq::<ClauseModel>::empty() =~= start);
        while i < refined.len()
            invariant
                i <= refined.len(),
                depth > 1,
                s == language.schema@,
                language.schema.wf(),
                cs == clause_views(refined@),
                all_wf(cs, language.schema@),
                clause_views(collect@) == start + refined_all(cs.take(i as int), s, (depth - 1) as nat),
                all_wf(clause_views(collect@), language.schema@),
            decreases refined.len() - i,
        {
            assert(well_typed(cs[i as int], language.schema@));
            refine_to_length(&refined[i], language, depth - 1, collect);
            assert(cs.take(i + 1).drop_last() =~= cs.take(i as int));
            assert(cs.take(i + 1).last() == cs[i as int]);
            assert(start + refined_all(cs.take(i + 1), s, (depth - 1) as nat) =~= start + refined_all(
                cs.take(i as int),
                s,
                (depth - 1) as nat,
            ) + refined_to(cs[i as int], s, (depth - 1) as nat));
            i = i + 1;
        }
        assert(cs.take(i as int) =~= cs);
    }
}

/// A classification task: the type whose instances are classified, the
/// attribute type that gives their class, and the labelled examples.
#[derive(Debug)]
pub struct ClassificationTask {
    pub target_type: SchemaType,
    pub class_type: SchemaType,
    pub dataset: Dataset,
}

impl ClassificationTask {
    /// The task for the types of these labels; None where the schema lacks either.
    pub fn new(
        language: &HypothesisLanguage,
        target_type_label: &str,
        class_attribute_label: &str,
        dataset: Dataset,
    ) -> (r: Option<ClassificationTask>)
        ensures
            r is Some <==> (has_key(language.schema@.subtypes, target_type_label@) && has_key(
                language.schema@.subtypes,
                class_attribute_label@,
            )),
            match r {
                Some(t) => t.target_type@ == target_type_label@ && t.class_type@
                    == class_attribute_label@ && t.dataset@ == dataset@,
                None => true,
            },
    {
        let target_type = match language.lookup_type(target_type_label) {
            Some(t) => t,
            None => {
                return None;
            },
        };
        let class_type = match language.lookup_type(class_attribute_label) {
            Some(t) => t,
            None => {
                return None;
            },
        };
        Some(ClassificationTask { target_type, class_type, dataset })
    }

    /// The clause the tree's root holds: `$instance_0 isa <target type>`.
    pub fn initial_clause(&self, language: &HypothesisLanguage) -> (r: Clause)
        requires
            language.schema.wf(),
        ensures
            r@ == isa_ext(empty_clause(), language.schema@, INSTANCE_VAR_NAME@, self.target_type@),
            well_typed(r@, language.schema@),
    {
        Clause::new_from_isa(self.target_type.clone(), &language.schema)
    }
}

/// A leaf: the clause true along its path, and the examples that reach it.
#[derive(Debug)]
pub struct LeafNode {
    pub test_prefix: Clause,
    pub dataset: Dataset,
}

/// An inner node: its clause and examples, the subtree of the examples that its
/// test holds of (`left`) and of the others (`right`).
#[derive(Debug)]
pub struct InnerNode {
    pub test_prefix: Clause,
    pub dataset: Dataset,
    pub left: Box<TildeTree>,
    pub right: Box<TildeTree>,
}

/// A TILDE decision tree.
#[derive(Debug)]
pub enum TildeTree {
    Leaf(LeafNode),
    Inner(InnerNode),
}

impl LeafNode {
    pub fn new(test_prefix: Clause, dataset: Dataset) -> (r: LeafNode)
        ensures
            r.test_prefix@ == test_prefix@,
            r.dataset@ == dataset@,
    {
        LeafNode { test_prefix, dataset }
    }

    /// Whether the leaf has too few examples to split.
    pub fn too_few_examples(&self) -> (r: bool)
        ensures
            r == (self.dataset@.len() < MIN_SPLIT_EXAMPLES),
    {
        self.dataset.len() < MIN_SPLIT_EXAMPLES
    }

    /// The candidate tests that `lookahead` refinement steps reach from the leaf's
    /// clause.
    pub fn candidates(&self, language: &HypothesisLanguage, lookahead: usize) -> (r: Vec<Clause>)
        requires
            well_typed(self.test_prefix@, language.schema@),
            language.schema.wf(),
            lookahead >= 1,
        ensures
            clause_views(r@) == refined_to(self.test_prefix@, language.schema@, lookahead as nat),
            all_wf(clause_views(r@), language.schema@),
    {
        let mut collect: Vec<Clause> = Vec::new();
        assert(clause_views(collect@) =~= Seq::<ClauseModel>::empty());
        refine_to_length(&self.test_prefix, language, lookahead, &mut collect);
        assert(clause_views(collect@) =~= refined_to(
            self.test_prefix@,
            language.schema@,
            lookahead as nat,
        ));
        collect
    }

    /// Splits the leaf on the candidate test at `index` among `candidates`, the
    /// leaf's candidates at this lookahead, given the instances that it covers:
    /// the examples covered go left under the candidate's clause, the others right
    /// under the leaf's own clause. Where either side would be empty the test
    /// separates nothing, and the leaf is given back as it is.
    pub fn split(
        self,
        language: &HypothesisLanguage,
        lookahead: usize,
        candidates: Vec<Clause>,
        index: usize,
        covered: &Vec<Instance>,
    ) -> (r: TildeTree)
        requires
            1 <= lookahead <= MAX_LOOKAHEAD,
            clause_views(candidates@) == refined_to(
                self.test_prefix@,
                language.schema@,
                lookahead as nat,
            ),
            index < candidates@.len(),
        ensures
            ({
                let refined = refined_to(self.test_prefix@, language.schema@, lookahead as nat)[index as int];
                let l = split_part(self.dataset@, instance_views(covered@), true);
                let rr = split_part(self.dataset@, instance_views(covered@), false);
                if l.len() > 0 && rr.len() > 0 {
                    inner_split_of(r, self.test_prefix@, self.dataset@, refined, l, rr)
                } else {
                    r is Leaf && r->Leaf_0.test_prefix@ == self.test_prefix@ && r->Leaf_0.dataset@
                        == self.dataset@
                }
            }),
            r is Inner ==> r->Inner_0.left.size() < self.dataset@.len()
                && r->Inner_0.right.size() < self.dataset@.len(),
    {
        let (left, right) = self.dataset.split_on(covered);
        if left.len() > 0 && right.len() > 0 {
            let mut candidates = candidates;
            assert(clause_views(candidates@)[index as int] == candidates@[index as int]@);
            let refined = candidates.remove(index);
            let prefix = self.test_prefix.clone();
            let l = TildeTree::Leaf(LeafNode { test_prefix: refined, dataset: left });
            let rt = TildeTree::Leaf(LeafNode { test_prefix: prefix, dataset: right });
            TildeTree::Inner(
                InnerNode {
                    test_prefix: self.test_prefix,
                    dataset: self.dataset,
                    left: Box::new(l),
                    right: Box::new(rt),
                },
            )
        } else {
            TildeTree::Leaf(self)
        }
    }

    /// The class the leaf predicts: its majority class, ties going to positive.
    pub fn target(&self) -> (r: Option<bool>)
        ensures
            r == if self.dataset@.len() == 0 {
                None
            } else {
                Some(class_count(self.dataset@, true) >= class_count(self.dataset@, false))
            },
    {
        self.dataset.majority_class()
    }
}

/// `t` is an inner node with this clause and these examples, whose left leaf has
/// `refined` and the examples `l`, and whose right leaf has the same clause and
/// the examples `r`.
pub open spec fn inner_split_of(
    t: TildeTree,
    prefix: ClauseModel,
    d: Seq<(Seq<u8>, bool)>,
    refined: ClauseModel,
    l: Seq<(Seq<u8>, bool)>,
    r: Seq<(Seq<u8>, bool)>,
) -> bool {
    &&& t is Inner
    &&& t->Inner_0.test_prefix@ == prefix
    &&& t->Inner_0.dataset@ == d
    &&& *t->Inner_0.left is Leaf
    &&& t->Inner_0.left->Leaf_0.test_prefix@ == refined
    &&& t->Inner_0.left->Leaf_0.dataset@ == l
    &&& *t->Inner_0.right is Leaf
    &&& t->Inner_0.right->Leaf_0.test_prefix@ == prefix
    &&& t->Inner_0.right->Leaf_0.dataset@ == r
}

impl TildeTree {
    /// The number of examples at the root.
    pub open spec fn size(&self) -> nat {
        match self {
            TildeTree::Leaf(l) => l.dataset@.len(),
            TildeTree::Inner(n) => n.dataset@.len(),
        }
    }

    /// The number of levels below the root.
    pub open spec fn height(&self) -> nat
        decreases self,
    {
        match self {
            TildeTree::Leaf(_) => 0,
            TildeTree::Inner(n) => inner_height(*n),
        }
    }
}

/// One more than the higher subtree's height.
pub open spec fn inner_height(n: InnerNode) -> nat
    decreases n,
{
    let a = n.left.height();
    let b = n.right.height();
    1 + if a > b {
        a
    } else {
        b
    }
}

/// A split that separates something leaves each child fewer examples than its
/// parent: the measure that the recursion of tree growing decreases.
pub proof fn lemma_split_children_smaller(d: Seq<(Seq<u8>, bool)>, covered: Seq<Seq<u8>>)
    requires
        split_part(d, covered, true).len() > 0,
        split_part(d, covered, false).len() > 0,
    ensures
        split_part(d, covered, true).len() < d.len(),
        split_part(d, covered, false).len() < d.len(),
{
    lemma_split_len(d, covered);
}

/// The header line of a node: its number of examples and of each class.
pub open spec fn counts_text(d: Seq<(Seq<u8>, bool)>) -> Seq<char> {
    "(samples="@ + decimal(d.len()) + ", +: "@ + decimal(class_count(d, true)) + ", -: "@ + decimal(
        class_count(d, false),
    ) + ")"@
}

pub open spec fn leaf_text(l: LeafNode, depth: nat) -> Seq<char> {
    indent_text(depth) + counts_text(l.dataset@) + " LEAF [\n"@ + indented_clause_text(
        l.test_prefix@,
        depth + 1,
    ) + indent_text(depth) + "]\n"@
}

/// How a tree is written: each node's counts and clause, an inner node's
/// subtrees under `if true:` and `if false:`, two levels deeper.
pub open spec fn tree_text(t: TildeTree, depth: nat) -> Seq<char>
    decreases t,
{
    match t {
        TildeTree::Leaf(l) => leaf_text(l, depth),
        TildeTree::Inner(n) => indent_text(depth) + counts_text(n.dataset@) + " INNER [\n"@
            + indented_clause_text(n.test_prefix@, depth + 1) + indent_text(depth) + "]\n"@
            + indent_text(depth) + "  if true:\n"@ + tree_text(*n.left, depth + 2) + "\n"@
            + indent_text(depth) + "  if false:\n"@ + tree_text(*n.right, depth + 2) + indent_text(
            depth,
        ) + "}\n"@,
    }
}

fn counts_line(d: &Dataset) -> (r: String)
    ensures
        r@ == counts_text(d@),
{
    let counts = d.count_by_class();
    let mut r = String::new();
    r.append("(samples=");
    let n = decimal_text(d.len());
    r.append(n.as_str());
    r.append(", +: ");
    let p = decimal_text(counts.positive);
    r.append(p.as_str());
    r.append(", -: ");
    let q = decimal_text(counts.negative);
    r.append(q.as_str());
    r.append(")");
    r
}

impl LeafNode {
    /// The leaf written at `depth` levels of indentation.
    pub fn fmt_with_indent(&self, depth: usize) -> (r: String)
        requires
            depth < usize::MAX,
        ensures
            r@ == leaf_text(*self, depth as nat),
    {
        let pad = indent(depth);
        let mut r = pad.clone();
        let counts = counts_line(&self.dataset);
        r.append(counts.as_str());
        r.append(" LEAF [\n");
        let body = self.test_prefix.fmt_with_indent(depth + 1);
        r.append(body.as_str());
        r.append(pad.as_str());
        r.append("]\n");
        r
    }
}

impl InnerNode {
    /// The node and its subtrees written at `depth` levels of indentation.
    pub fn fmt_with_indent(&self, depth: usize) -> (r: String)
        requires
            depth + 2 * inner_height(*self) + 1 <= usize::MAX,
        ensures
            r@ == tree_text(TildeTree::Inner(*self), depth as nat),
        decreases inner_height(*self), 0nat,
    {
        let pad = indent(depth);
        let mut r = pad.clone();
        let counts = counts_line(&self.dataset);
        r.append(counts.as_str());
        r.append(" INNER [\n");
        let body = self.test_prefix.fmt_with_indent(depth + 1);
        r.append(body.as_str());
        r.append(pad.as_str());
        r.append("]\n");
        r.append(pad.as_str());
        r.append("  if true:\n");
        let left = self.left.fmt_with_indent(depth + 2);
        r.append(left.as_str());
        r.append("\n");
        r.append(pad.as_str());
        r.append("  if false:\n");
        let right = self.right.fmt_with_indent(depth + 2);
        r.append(right.as_str());
        r.append(pad.as_str());
        r.append("}\n");
        r
    }
}

impl TildeTree {
    /// The tree written at `depth` levels of indentation.
    pub fn fmt_with_indent(&self, depth: usize) -> (r: String)
        requires
            depth + 2 * self.height() + 1 <= usize::MAX,
        ensures
            r@ == tree_text(*self, depth as nat),
        decreases self.height(), 1nat,
    {
        match self {
            TildeTree::Leaf(l) => l.fmt_with_indent(depth),
            TildeTree::Inner(n) => n.fmt_with_indent(depth),
        }
    }
}

} // verus!
