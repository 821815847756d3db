//! Clauses: ordered conjunctions of literals over typed variables, each clause
//! with the set of schema types that each of its variables may still have.
use crate::language::{
    lemma_insert_label_contains, lemma_lookup_absent, lemma_lookup_at, values_of, AttributeValue,
    HypothesisLanguage, Schema, SchemaModel, consistent, SchemaType, TypeMap, TypeSet, has_key, insert_label,
    lookup,
};
use crate::text::{
    after_last_colon, colons_doubled, count_below, decimal, indent, indent_text, join_with, joined,
    keep_only, lemma_count_below, lemma_count_below_bound, lemma_keep_only, lemma_lex_irreflexive,
    lemma_lex_total, lemma_sorted_insert, lex_less, lex_lt, same_text, strictly_sorted, unscoped,
    views_of_strings,
};
use vstd::prelude::*;

verus! {

/// A logical variable of a clause, known by its name.
#[derive(Debug)]
pub struct ClauseVariable(pub String);

impl View for ClauseVariable {
    type V = Seq<char>;

    open spec fn view(&self) -> Seq<char> {
        self.0@
    }
}

impl Clone for ClauseVariable {
    fn clone(&self) -> (r: Self)
        ensures
            r@ == self@,
    {
        ClauseVariable(self.0.clone())
    }
}

/// The name of the variable that a learning task's target instances bind.
pub const INSTANCE_VAR_NAME: &'static str = "instance_0";

impl ClauseVariable {
    pub fn name(&self) -> (r: &str)
        ensures
            r@ == self@,
    {
        self.0.as_str()
    }

    /// The target variable, `instance_0`.
    pub fn instance() -> (r: ClauseVariable)
        ensures
            r@ == INSTANCE_VAR_NAME@,
    {
        ClauseVariable(INSTANCE_VAR_NAME.to_owned())
    }
}

/// An environment of variable types: names, in increasing order, each with its
/// set of type labels.
pub type EnvModel = Seq<(Seq<char>, Seq<Seq<char>>)>;

pub open spec fn env_names(env: EnvModel) -> Seq<Seq<char>> {
    env.map_values(|e: (Seq<char>, Seq<Seq<char>>)| e.0)
}

/// Names sorted and unique; each set of types sorted and not empty.
pub open spec fn env_wf(env: EnvModel) -> bool {
    &&& strictly_sorted(env_names(env))
    &&& forall|i: int|
        0 <= i < env.len() ==> strictly_sorted((#[trigger] env[i]).1) && env[i].1.len() > 0
}

/// `env` with the types of `name` narrowed to those that `types` holds too, or,
/// for a name it does not have, with `name` added where it belongs and given
/// `types`.
pub open spec fn env_narrow(env: EnvModel, name: Seq<char>, types: Seq<Seq<char>>) -> EnvModel {
    let p = count_below(env_names(env), name) as int;
    if has_key(env, name) {
        env.update(p, (name, keep_only(env[p].1, types)))
    } else {
        env.insert(p, (name, types))
    }
}

/// In an environment with unique names, the entry for a name is the one that
/// `lookup` finds.
pub proof fn lemma_env_lookup(env: EnvModel, i: int)
    requires
        strictly_sorted(env_names(env)),
        0 <= i < env.len(),
    ensures
        lookup(env, env[i].0) == env[i].1,
        count_below(env_names(env), env[i].0) == i,
{
    let names = env_names(env);
    assert forall|j: int| 0 <= j < i implies (#[trigger] env[j]).0 != env[i].0 by {
        assert(lex_lt(names[j], names[i]));
        lemma_lex_irreflexive(names[i]);
    }
    lemma_lookup_at(env, env[i].0, i);
    assert forall|j: int| 0 <= j < i implies lex_lt(#[trigger] names[j], names[i]) by {}
    lemma_lex_irreflexive(names[i]);
    lemma_count_below(names, names[i], i);
}

pub proof fn lemma_env_has_key(env: EnvModel, name: Seq<char>)
    ensures
        has_key(env, name) <==> env_names(env).contains(name),
{
    if has_key(env, name) {
        let i = choose|i: int| 0 <= i < env.len() && (#[trigger] env[i]).0 == name;
        assert(env_names(env)[i] == name);
    }
    if env_names(env).contains(name) {
        let i = choose|i: int| 0 <= i < env_names(env).len() && env_names(env)[i] == name;
        assert(env[i].0 == name);
    }
}

/// What narrowing does to each name's entry.
pub proof fn lemma_env_narrow(env: EnvModel, name: Seq<char>, types: Seq<Seq<char>>)
    requires
        env_wf(env),
        strictly_sorted(types),
        !has_key(env, name) ==> types.len() > 0,
        has_key(env, name) ==> keep_only(lookup(env, name), types).len() > 0,
    ensures
        env_wf(env_narrow(env, name, types)),
        forall|k: Seq<char>| #[trigger]
            has_key(env_narrow(env, name, types), k) <==> (has_key(env, k) || k == name),
        forall|k: Seq<char>| #[trigger]
            lookup(env_narrow(env, name, types), k) == if k != name {
                lookup(env, k)
            } else if has_key(env, name) {
                keep_only(lookup(env, name), types)
            } else {
                types
            },
{
    let names = env_names(env);
    let p = count_below(names, name) as int;
    let n = env_narrow(env, name, types);
    if has_key(env, name) {
        let i = choose|i: int| 0 <= i < env.len() && (#[trigger] env[i]).0 == name;
        lemma_env_lookup(env, i);
        assert(p == i);
        assert(env_names(n) =~= names);
        lemma_keep_only(env[p].1, types);
        assert forall|j: int| 0 <= j < n.len() implies strictly_sorted((#[trigger] n[j]).1) && n[j].1.len()
            > 0 by {
            if j != p {
                assert(n[j] == env[j]);
            }
        }
        assert forall|k: Seq<char>| #[trigger] has_key(n, k) <==> (has_key(env, k) || k == name) by {
            if has_key(n, k) {
                let j = choose|j: int| 0 <= j < n.len() && (#[trigger] n[j]).0 == k;
                assert(env[j].0 == k);
            }
            if has_key(env, k) {
                let j = choose|j: int| 0 <= j < env.len() && (#[trigger] env[j]).0 == k;
                assert(n[j].0 == k);
            }
        }
        assert forall|k: Seq<char>| #[trigger]
            lookup(n, k) == if k != name {
                lookup(env, k)
            } else if has_key(env, name) {
                keep_only(lookup(env, name), types)
            } else {
                types
            } by {
            if has_key(env, k) {
                let j = choose|j: int| 0 <= j < env.len() && (#[trigger] env[j]).0 == k;
                lemma_env_lookup(env, j);
                assert(n[j].0 == k);
                lemma_env_lookup(n, j);
            } else {
                lemma_lookup_absent(env, k);
                assert(!has_key(n, k));
                lemma_lookup_absent(n, k);
            }
        }
    } else {
        lemma_env_has_key(env, name);
        assert forall|j: int| 0 <= j < p implies lex_lt(#[trigger] names[j], name) by {
            lemma_count_below_prefix(names, name, j);
        }
        lemma_count_below_bound(names, name);
        if p < names.len() {
            lemma_count_below_next(names, name);
            lemma_lex_total(names[p], name);
        }
        lemma_sorted_insert(names, name, p);
        assert(env_names(n) =~= names.insert(p, name));
        assert forall|j: int| 0 <= j < n.len() implies strictly_sorted((#[trigger] n[j]).1) && n[j].1.len()
            > 0 by {
            if j < p {
                assert(n[j] == env[j]);
            } else if j > p {
                assert(n[j] == env[j - 1]);
            }
        }
        assert forall|k: Seq<char>| #[trigger] has_key(n, k) <==> (has_key(env, k) || k == name) by {
            if has_key(n, k) {
                let j = choose|j: int| 0 <= j < n.len() && (#[trigger] n[j]).0 == k;
                if j < p {
                    assert(env[j].0 == k);
                } else if j > p {
                    assert(env[j - 1].0 == k);
                }
            }
            if has_key(env, k) {
                let j = choose|j: int| 0 <= j < env.len() && (#[trigger] env[j]).0 == k;
                if j < p {
                    assert(n[j].0 == k);
                } else {
                    assert(n[j + 1].0 == k);
                }
            }
            if k == name {
                assert(n[p].0 == k);
            }
        }
        assert forall|k: Seq<char>| #[trigger]
            lookup(n, k) == if k != name {
                lookup(env, k)
            } else if has_key(env, name) {
                keep_only(lookup(env, name), types)
            } else {
                types
            } by {
            if k == name {
                lemma_env_lookup(n, p);
            } else if has_key(env, k) {
                let j = choose|j: int| 0 <= j < env.len() && (#[trigger] env[j]).0 == k;
                lemma_env_lookup(env, j);
                if j < p {
                    assert(n[j] == env[j]);
                    lemma_env_lookup(n, j);
                } else {
                    assert(n[j + 1] == env[j]);
                    lemma_env_lookup(n, j + 1);
                }
            } else {
                lemma_lookup_absent(env, k);
                assert(!has_key(n, k));
                lemma_lookup_absent(n, k);
            }
        }
    }
}

/// In a sorted sequence, the members before `count_below(s, x)` come before `x`.
pub proof fn lemma_count_below_prefix(s: Seq<Seq<char>>, x: Seq<char>, j: int)
    requires
        strictly_sorted(s),
        0 <= j < count_below(s, x),
    ensures
        lex_lt(s[j], x),
    decreases s.len(),
{
    let d = s.drop_last();
    lemma_count_below_bound(d, x);
    assert(strictly_sorted(d)) by {
        assert forall|a: int, b: int| 0 <= a < b < d.len() implies lex_lt(#[trigger] d[a], #[trigger] d[b]) by {
            assert(lex_lt(s[a], s[b]));
        }
    }
    if lex_lt(s.last(), x) {
        if j < s.len() - 1 {
            assert(lex_lt(s[j], s[s.len() - 1]));
            crate::text::lemma_lex_transitive(s[j], s.last(), x);
        }
    } else {
        if j < count_below(d, x) {
            lemma_count_below_prefix(d, x, j);
        }
    }
}

/// In a sorted sequence, the member at `count_below(s, x)` does not come before `x`.
pub proof fn lemma_count_below_next(s: Seq<Seq<char>>, x: Seq<char>)
    requires
        strictly_sorted(s),
        count_below(s, x) < s.len(),
    ensures
        !lex_lt(s[count_below(s, x) as int], x),
    decreases s.len(),
{
    let d = s.drop_last();
    let p = count_below(s, x) as int;
    lemma_count_below_bound(d, x);
    assert(strictly_sorted(d)) by {
        assert forall|a: int, b: int| 0 <= a < b < d.len() implies lex_lt(#[trigger] d[a], #[trigger] d[b]) by {
            assert(lex_lt(s[a], s[b]));
        }
    }
    if !lex_lt(s.last(), x) {
        if count_below(d, x) < d.len() {
            lemma_count_below_next(d, x);
            assert(d[p] == s[p]);
        }
    } else {
        let q = count_below(d, x) as int;
        assert(q < d.len());
        lemma_count_below_next(d, x);
        assert(lex_lt(s[q], s[s.len() - 1]));
        crate::text::lemma_lex_transitive(s[q], s.last(), x);
        assert(d[q] == s[q]);
    }
}

/// The longest name in an environment.
pub open spec fn longest_name(env: EnvModel) -> nat
    decreases env.len(),
{
    if env.len() == 0 {
        0
    } else {
        let m = longest_name(env.drop_last());
        if env.last().0.len() > m {
            env.last().0.len()
        } else {
            m
        }
    }
}

pub proof fn lemma_longest_name(env: EnvModel, k: Seq<char>)
    requires
        has_key(env, k),
    ensures
        k.len() <= longest_name(env),
    decreases env.len(),
{
    let i = choose|i: int| 0 <= i < env.len() && (#[trigger] env[i]).0 == k;
    if i < env.len() - 1 {
        assert(env.drop_last()[i] == env[i]);
        lemma_longest_name(env.drop_last(), k);
    }
}

/// `name`, with underscores appended until the environment does not have it.
pub open spec fn padded(env: EnvModel, name: Seq<char>) -> Seq<char>
    decreases longest_name(env) + 1 - name.len(),
{
    if name.len() > longest_name(env) || !has_key(env, name) {
        name
    } else {
        padded(env, name.push('_'))
    }
}

pub proof fn lemma_padded_fresh(env: EnvModel, name: Seq<char>)
    ensures
        !has_key(env, padded(env, name)),
    decreases longest_name(env) + 1 - name.len(),
{
    if name.len() > longest_name(env) {
        if has_key(env, name) {
            lemma_longest_name(env, name);
        }
    } else if has_key(env, name) {
        lemma_padded_fresh(env, name.push('_'));
    }
}

/// A comparison of two values.
#[derive(Clone, Copy, Debug, PartialEq, Eq, Structural)]
pub enum ValueComparator {
    Eq,
    Neq,
    Lte,
    Gte,
}

/// How a pattern writes each comparator.
pub open spec fn comparator_text(c: ValueComparator) -> Seq<char> {
    match c {
        ValueComparator::Eq => seq!['=', '='],
        ValueComparator::Neq => seq!['!', '='],
        ValueComparator::Lte => seq!['<', '='],
        ValueComparator::Gte => seq!['>', '='],
    }
}

/// Relies on typeql's `token::Comparator`, whose `as_str` gives `==`, `!=`, `<=`
/// and `>=` for these four comparators.
#[verifier::external_body]
fn comparator_token(c: ValueComparator) -> (r: String)
    ensures
        r@ == comparator_text(c),
{
    let token = match c {
        ValueComparator::Eq => typeql::token::Comparator::Eq,
        ValueComparator::Neq => typeql::token::Comparator::Neq,
        ValueComparator::Lte => typeql::token::Comparator::Lte,
        ValueComparator::Gte => typeql::token::Comparator::Gte,
    };
    token.as_str().to_string()
}

/// A literal as values: variables by name, types by label, values by their text.
#[allow(inconsistent_fields)]
pub enum LiteralModel {
    Has { owner: Seq<char>, type_: Seq<char>, attribute: Seq<char> },
    HasValue { owner: Seq<char>, type_: Seq<char>, value: Seq<char> },
    Links { relation: Seq<char>, role: Seq<char>, player: Seq<char> },
    Isa { instance: Seq<char>, type_: Seq<char> },
    CompareVariables { lhs: Seq<char>, comparator: ValueComparator, rhs: Seq<char> },
    CompareConstant { lhs: Seq<char>, comparator: ValueComparator, rhs: Seq<char> },
}

/// One conjunct of a clause.
#[derive(Debug)]
#[allow(inconsistent_fields)]
pub enum ClauseLiteral {
    /// `owner` owns an attribute of `type_`, bound to `attribute`.
    Has { owner: ClauseVariable, type_: SchemaType, attribute: ClauseVariable },
    /// `owner` owns an attribute of `type_` with this value.
    HasValue { owner: ClauseVariable, type_: SchemaType, value: AttributeValue },
    /// `player` plays `role` in `relation`.
    Links { relation: ClauseVariable, role: SchemaType, player: ClauseVariable },
    /// `instance` is an instance of `type_`.
    Isa { instance: ClauseVariable, type_: SchemaType },
    CompareVariables { lhs: ClauseVariable, comparator: ValueComparator, rhs: ClauseVariable },
    CompareConstant { lhs: ClauseVariable, comparator: ValueComparator, rhs: AttributeValue },
}

impl View for ClauseLiteral {
    type V = LiteralModel;

    open spec fn view(&self) -> LiteralModel {
        match self {
            ClauseLiteral::Has { owner, type_, attribute } => LiteralModel::Has {
                owner: owner@,
                type_: type_@,
                attribute: attribute@,
            },
            ClauseLiteral::HasValue { owner, type_, value } => LiteralModel::HasValue {
                owner: owner@,
                type_: type_@,
                value: value@,
            },
            ClauseLiteral::Links { relation, role, player } => LiteralModel::Links {
                relation: relation@,
                role: role@,
                player: player@,
            },
            ClauseLiteral::Isa { instance, type_ } => LiteralModel::Isa {
                instance: instance@,
                type_: type_@,
            },
            ClauseLiteral::CompareVariables { lhs, comparator, rhs } => LiteralModel::CompareVariables {
                lhs: lhs@,
                comparator: *comparator,
                rhs: rhs@,
            },
            ClauseLiteral::CompareConstant { lhs, comparator, rhs } => LiteralModel::CompareConstant {
                lhs: lhs@,
                comparator: *comparator,
                rhs: rhs@,
            },
        }
    }
}

impl Clone for ClauseLiteral {
    fn clone(&self) -> (r: Self)
        ensures
            r@ == self@,
    {
        match self {
            ClauseLiteral::Has { owner, type_, attribute } => ClauseLiteral::Has {
                owner: owner.clone(),
                type_: type_.clone(),
                attribute: attribute.clone(),
            },
            ClauseLiteral::HasValue { owner, type_, value } => ClauseLiteral::HasValue {
                owner: owner.clone(),
                type_: type_.clone(),
                value: value.clone(),
            },
            ClauseLiteral::Links { relation, role, player } => ClauseLiteral::Links {
                relation: relation.clone(),
                role: role.clone(),
                player: player.clone(),
            },
            ClauseLiteral::Isa { instance, type_ } => ClauseLiteral::Isa {
                instance: instance.clone(),
                type_: type_.clone(),
            },
            ClauseLiteral::CompareVariables { lhs, comparator, rhs } => ClauseLiteral::CompareVariables {
                lhs: lhs.clone(),
                comparator: *comparator,
                rhs: rhs.clone(),
            },
            ClauseLiteral::CompareConstant { lhs, comparator, rhs } => ClauseLiteral::CompareConstant {
                lhs: lhs.clone(),
                comparator: *comparator,
                rhs: rhs.clone(),
            },
        }
    }
}

/// The variables that a literal mentions.
pub open spec fn literal_vars(l: LiteralModel) -> Seq<Seq<char>> {
    match l {
        LiteralModel::Has { owner, attribute, .. } => seq![owner, attribute],
        LiteralModel::HasValue { owner, .. } => seq![owner],
        LiteralModel::Links { relation, player, .. } => seq![relation, player],
        LiteralModel::Isa { instance, .. } => seq![instance],
        LiteralModel::CompareVariables { lhs, rhs, .. } => seq![lhs, rhs],
        LiteralModel::CompareConstant { lhs, .. } => seq![lhs],
    }
}

/// A clause as values: its literals in order, and its type environment.
pub struct ClauseModel {
    pub literals: Seq<LiteralModel>,
    pub env: EnvModel,
}

/// The environment is well formed, and every variable that a literal mentions
/// has a (non-empty) entry in it.
pub open spec fn clause_wf(c: ClauseModel) -> bool {
    &&& env_wf(c.env)
    &&& forall|i: int, k: int|
        0 <= i < c.literals.len() && 0 <= k < literal_vars(c.literals[i]).len() ==> has_key(
            c.env,
            #[trigger] literal_vars(#[trigger] c.literals[i])[k],
        )
}

/// The types a variable may have, among those that `types` holds.
pub open spec fn may_have_any(env: EnvModel, v: Seq<char>, types: Seq<Seq<char>>) -> bool {
    exists|x: Seq<char>| #[trigger] lookup(env, v).contains(x) && types.contains(x)
}

/// A conjunction of literals, with the types each of its variables may have.
#[derive(Debug)]
pub struct Clause {
    conjunction: Vec<ClauseLiteral>,
    types_: Vec<(ClauseVariable, TypeSet)>,
}

impl View for Clause {
    type V = ClauseModel;

    closed spec fn view(&self) -> ClauseModel {
        ClauseModel {
            literals: self.conjunction@.map_values(|l: ClauseLiteral| l@),
            env: self.types_@.map_values(|e: (ClauseVariable, TypeSet)| (e.0@, e.1@)),
        }
    }
}

impl Clone for Clause {
    fn clone(&self) -> (r: Self)
        ensures
            r@ == self@,
    {
        let mut conjunction: Vec<ClauseLiteral> = Vec::new();
        let mut i: usize = 0;
        while i < self.conjunction.len()
            invariant
                i <= self.conjunction.len(),
                conjunction@.len() == i,
                forall|j: int| 0 <= j < i ==> (#[trigger] conjunction@[j])@ == self.conjunction@[j]@,
            decreases self.conjunction.len() - i,
        {
            conjunction.push(self.conjunction[i].clone());
            i = i + 1;
        }
        let mut types_: Vec<(ClauseVariable, TypeSet)> = Vec::new();
        let mut i: usize = 0;
        while i < self.types_.len()
            invariant
                i <= self.types_.len(),
                types_@.len() == i,
                forall|j: int|
                    0 <= j < i ==> (#[trigger] types_@[j]).0@ == self.types_@[j].0@ && types_@[j].1@
                        == self.types_@[j].1@,
            decreases self.types_.len() - i,
        {
            types_.push((self.types_[i].0.clone(), self.types_[i].1.clone()));
            i = i + 1;
        }
        let r = Clause { conjunction, types_ };
        assert(r@.literals =~= self@.literals);
        assert(r@.env =~= self@.env);
        r
    }
}

impl Clause {
    pub fn new_empty() -> (r: Clause)
        ensures
            r@.literals == Seq::<LiteralModel>::empty(),
            r@.env == EnvModel::empty(),
            clause_wf(r@),
    {
        let r = Clause { conjunction: Vec::new(), types_: Vec::new() };
        assert(r@.literals =~= Seq::<LiteralModel>::empty());
        assert(r@.env =~= EnvModel::empty());
        r
    }

    /// The number of literals.
    pub fn len(&self) -> (r: usize)
        ensures
            r == self@.literals.len(),
    {
        self.conjunction.len()
    }

    pub fn literals(&self) -> (r: &Vec<ClauseLiteral>)
        ensures
            r@.map_values(|l: ClauseLiteral| l@) == self@.literals,
    {
        &self.conjunction
    }

    /// The types the variable of this name may have, if the clause has it.
    pub fn variable_types(&self, name: &str) -> (r: Option<&TypeSet>)
        requires
            env_wf(self@.env),
        ensures
            match r {
                Some(t) => has_key(self@.env, name@) && t@ == lookup(self@.env, name@),
                None => !has_key(self@.env, name@),
            },
    {
        let mut i: usize = 0;
        while i < self.types_.len()
            invariant
                i <= self.types_.len(),
                env_wf(self@.env),
                forall|j: int| 0 <= j < i ==> (#[trigger] self@.env[j]).0 != name@,
            decreases self.types_.len() - i,
        {
            if same_text(self.types_[i].0.name(), name) {
                proof {
                    assert(self@.env[i as int].0 == name@);
                    lemma_env_lookup(self@.env, i as int);
                }
                return Some(&self.types_[i].1);
            }
            i = i + 1;
        }
        None
    }

    /// Narrows the types of `var` to those `types` holds too; gives a variable that
    /// the clause does not have `types`.
    fn narrow(&mut self, var: &ClauseVariable, types: &TypeSet)
        requires
            env_wf(old(self)@.env),
            types.wf(),
            !has_key(old(self)@.env, var@) ==> types@.len() > 0,
            has_key(old(self)@.env, var@) ==> keep_only(lookup(old(self)@.env, var@), types@).len()
                > 0,
        ensures
            final(self)@.literals == old(self)@.literals,
            final(self)@.env == env_narrow(old(self)@.env, var@, types@),
            env_wf(final(self)@.env),
    {
        let ghost env = self@.env;
        let ghost names = env_names(env);
        proof {
            lemma_env_narrow(env, var@, types@);
        }
        let mut p: usize = 0;
        while p < self.types_.len() && lex_less(self.types_[p].0.name(), var.name())
            invariant
                p <= self.types_.len(),
                env == self@.env,
                names == env_names(env),
                forall|j: int| 0 <= j < p ==> lex_lt(#[trigger] names[j], var@),
            decreases self.types_.len() - p,
        {
            assert(names[p as int] == self.types_@[p as int].0@);
            p = p + 1;
        }
        proof {
            if p < self.types_.len() {
                assert(names[p as int] == self.types_@[p as int].0@);
            }
            lemma_count_below(names, var@, p as int);
            lemma_env_has_key(env, var@);
            if names.contains(var@) {
                let k = choose|k: int| 0 <= k < names.len() && names[k] == var@;
                if k < p {
                    lemma_lex_irreflexive(var@);
                }
                if k > p {
                    assert(lex_lt(names[p as int], names[k]));
                }
            }
        }
        if p < self.types_.len() && same_text(self.types_[p].0.name(), var.name()) {
            assert(env[p as int].0 == var@);
            let narrowed = self.types_[p].1.restrict_to(types);
            let name = self.types_[p].0.clone();
            self.types_.set(p, (name, narrowed));
            assert(self@.env =~= env_narrow(env, var@, types@));
        } else {
            assert(!names.contains(var@));
            self.types_.insert(p, (var.clone(), types.clone()));
            assert(self@.env =~= env_narrow(env, var@, types@));
        }
    }

    /// Whether the clause has a variable of this name.
    pub fn has_variable(&self, name: &str) -> (r: bool)
        ensures
            r == has_key(self@.env, name@),
    {
        let mut i: usize = 0;
        while i < self.types_.len()
            invariant
                i <= self.types_.len(),
                forall|j: int| 0 <= j < i ==> (#[trigger] self@.env[j]).0 != name@,
            decreases self.types_.len() - i,
        {
            if same_text(self.types_[i].0.name(), name) {
                assert(self@.env[i as int].0 == name@);
                return true;
            }
            i = i + 1;
        }
        false
    }

    /// A variable named after `type_` and the clause's length, with `suffix`,
    /// and with underscores appended until the clause does not have it.
    fn fresh_variable(&self, type_: &SchemaType, suffix: Option<&str>) -> (r: ClauseVariable)
        ensures
            r@ == padded(self@.env, base_name(type_@, self@.literals.len(), opt_view(suffix))),
            !has_key(self@.env, r@),
    {
        let mut name = crate::text::double_colons(type_.label());
        name.append("_");
        let digits = crate::text::decimal_text(self.conjunction.len());
        name.append(digits.as_str());
        match suffix {
            Some(x) => {
                name.append("_");
                name.append(x);
            },
            None => {},
        }
        proof {
            reveal_strlit("_");
        }
        assert(name@ =~= base_name(type_@, self@.literals.len(), opt_view(suffix)));
        let ghost base = name@;
        while self.has_variable(name.as_str())
            invariant
                padded(self@.env, name@) == padded(self@.env, base),
            decreases longest_name(self@.env) + 1 - name@.len(),
        {
            proof {
                lemma_longest_name(self@.env, name@);
                reveal_strlit("_");
            }
            let ghost before = name@;
            name.append("_");
            assert(name@ =~= before.push('_'));
        }
        proof {
            lemma_padded_fresh(self@.env, base);
        }
        ClauseVariable(name)
    }
}

pub open spec fn opt_view(s: Option<&str>) -> Option<Seq<char>> {
    match s {
        Some(x) => Some(x@),
        None => None,
    }
}

/// The name of a fresh variable before padding: the type's label with each `:`
/// written `__`, an underscore, the clause's length, and `_suffix` if there is one.
pub open spec fn base_name(t: Seq<char>, n: nat, suffix: Option<Seq<char>>) -> Seq<char> {
    let b = colons_doubled(t) + seq!['_'] + decimal(n);
    match suffix {
        Some(x) => b + seq!['_'] + x,
        None => b,
    }
}

/// The types that `Isa(v, t)` leaves `v`: `t` and its subtypes.
pub open spec fn isa_types(s: SchemaModel, t: Seq<char>) -> Seq<Seq<char>> {
    insert_label(lookup(s.subtypes, t), t)
}

/// `c` extended by `Isa(v, t)`.
pub open spec fn isa_ext(c: ClauseModel, s: SchemaModel, v: Seq<char>, t: Seq<char>) -> ClauseModel {
    ClauseModel {
        literals: c.literals.push(LiteralModel::Isa { instance: v, type_: t }),
        env: env_narrow(c.env, v, isa_types(s, t)),
    }
}

/// `c` extended by `HasValue(v, a, x)`: `v` narrowed to the owners of `a`.
pub open spec fn has_value_ext(
    c: ClauseModel,
    s: SchemaModel,
    v: Seq<char>,
    a: Seq<char>,
    x: Seq<char>,
) -> ClauseModel {
    ClauseModel {
        literals: c.literals.push(LiteralModel::HasValue { owner: v, type_: a, value: x }),
        env: env_narrow(c.env, v, lookup(s.owners, a)),
    }
}

/// `c` extended by `Links(v, r, p)` for a fresh player `p` that may have the types
/// that play `r`; `v` narrowed to the relations that relate `r`.
pub open spec fn related_ext(c: ClauseModel, s: SchemaModel, v: Seq<char>, r: Seq<char>) -> ClauseModel {
    let p = padded(c.env, base_name(r, c.literals.len(), None));
    ClauseModel {
        literals: c.literals.push(LiteralModel::Links { relation: v, role: r, player: p }),
        env: env_narrow(env_narrow(c.env, v, lookup(s.related_by, r)), p, lookup(s.players, r)),
    }
}

/// `c` extended by `Links(q, r, v)` for a fresh relation `q` that may have the types
/// that relate `r`; `v` narrowed to the types that play `r`.
pub open spec fn played_ext(c: ClauseModel, s: SchemaModel, v: Seq<char>, r: Seq<char>) -> ClauseModel {
    let q = padded(c.env, base_name(r, c.literals.len(), Some("rel"@)));
    ClauseModel {
        literals: c.literals.push(LiteralModel::Links { relation: q, role: r, player: v }),
        env: env_narrow(env_narrow(c.env, v, lookup(s.players, r)), q, lookup(s.related_by, r)),
    }
}

/// `c` extended by `Has(v, a, x)` for a fresh attribute variable `x` of type `a`;
/// `v` narrowed to the owners of `a`.
pub open spec fn has_ext(c: ClauseModel, s: SchemaModel, v: Seq<char>, a: Seq<char>) -> ClauseModel {
    let x = padded(c.env, base_name(a, c.literals.len(), None));
    ClauseModel {
        literals: c.literals.push(LiteralModel::Has { owner: v, type_: a, attribute: x }),
        env: env_narrow(env_narrow(c.env, v, lookup(s.owners, a)), x, seq![a]),
    }
}

/// Every member of `a` is one of `b`.
pub open spec fn within(a: Seq<Seq<char>>, b: Seq<Seq<char>>) -> bool {
    forall|x: Seq<char>| #[trigger] a.contains(x) ==> b.contains(x)
}

/// What a literal says of the types of its variables: after `Isa(v, t)`, `v`
/// may have only `t` and its subtypes; after `Has(o, a, x)` or `HasValue(o, a, _)`,
/// `o` only owners of `a`, and `x` only `a`; after `Links(r, role, p)`, `r` only
/// relations that relate `role`, and `p` only types that play it.
pub open spec fn literal_typed(l: LiteralModel, env: EnvModel, s: SchemaModel) -> bool {
    match l {
        LiteralModel::Isa { instance, type_ } => within(lookup(env, instance), isa_types(s, type_)),
        LiteralModel::Has { owner, type_, attribute } => within(lookup(env, owner), lookup(s.owners, type_))
            && within(lookup(env, attribute), seq![type_]),
        LiteralModel::HasValue { owner, type_, .. } => within(lookup(env, owner), lookup(s.owners, type_)),
        LiteralModel::Links { relation, role, player } => within(
            lookup(env, relation),
            lookup(s.related_by, role),
        ) && within(lookup(env, player), lookup(s.players, role)),
        _ => true,
    }
}

/// The clause is well formed, and its environment agrees with what each of its
/// literals says.
pub open spec fn well_typed(c: ClauseModel, s: SchemaModel) -> bool {
    &&& clause_wf(c)
    &&& forall|i: int| 0 <= i < c.literals.len() ==> literal_typed(#[trigger] c.literals[i], c.env, s)
}

proof fn lemma_within_trans(a: Seq<Seq<char>>, b: Seq<Seq<char>>, c: Seq<Seq<char>>)
    requires
        within(a, b),
        within(b, c),
    ensures
        within(a, c),
{
    assert forall|x: Seq<char>| #[trigger] a.contains(x) implies c.contains(x) by {
        assert(b.contains(x));
    }
}

proof fn lemma_literal_typed_shrink(l: LiteralModel, e1: EnvModel, e2: EnvModel, s: SchemaModel)
    requires
        literal_typed(l, e1, s),
        forall|k: int|
            0 <= k < literal_vars(l).len() ==> within(
                lookup(e2, #[trigger] literal_vars(l)[k]),
                lookup(e1, literal_vars(l)[k]),
            ),
    ensures
        literal_typed(l, e2, s),
{
    match l {
        LiteralModel::Isa { instance, type_ } => {
            assert(literal_vars(l)[0] == instance);
            lemma_within_trans(lookup(e2, instance), lookup(e1, instance), isa_types(s, type_));
        },
        LiteralModel::Has { owner, type_, attribute } => {
            assert(literal_vars(l)[0] == owner);
            assert(literal_vars(l)[1] == attribute);
            lemma_within_trans(lookup(e2, owner), lookup(e1, owner), lookup(s.owners, type_));
            lemma_within_trans(lookup(e2, attribute), lookup(e1, attribute), seq![type_]);
        },
        LiteralModel::HasValue { owner, type_, .. } => {
            assert(literal_vars(l)[0] == owner);
            lemma_within_trans(lookup(e2, owner), lookup(e1, owner), lookup(s.owners, type_));
        },
        LiteralModel::Links { relation, role, player } => {
            assert(literal_vars(l)[0] == relation);
            assert(literal_vars(l)[1] == player);
            lemma_within_trans(lookup(e2, relation), lookup(e1, relation), lookup(s.related_by, role));
            lemma_within_trans(lookup(e2, player), lookup(e1, player), lookup(s.players, role));
        },
        _ => {},
    }
}

/// Narrowing an environment keeps what the literals say of their variables true.
proof fn lemma_narrow_keeps_typed(
    lits: Seq<LiteralModel>,
    env: EnvModel,
    name: Seq<char>,
    types: Seq<Seq<char>>,
    s: SchemaModel,
)
    requires
        env_wf(env),
        strictly_sorted(types),
        !has_key(env, name) ==> types.len() > 0,
        has_key(env, name) ==> keep_only(lookup(env, name), types).len() > 0,
        forall|i: int, k: int|
            0 <= i < lits.len() && 0 <= k < literal_vars(lits[i]).len() ==> has_key(
                env,
                #[trigger] literal_vars(#[trigger] lits[i])[k],
            ),
        forall|i: int| 0 <= i < lits.len() ==> literal_typed(#[trigger] lits[i], env, s),
    ensures
        forall|i: int|
            0 <= i < lits.len() ==> literal_typed(#[trigger] lits[i], env_narrow(env, name, types), s),
{
    let n = env_narrow(env, name, types);
    lemma_env_narrow(env, name, types);
    assert forall|i: int| 0 <= i < lits.len() implies literal_typed(#[trigger] lits[i], n, s) by {
        let l = lits[i];
        assert forall|k: int| 0 <= k < literal_vars(l).len() implies within(
            lookup(n, #[trigger] literal_vars(l)[k]),
            lookup(env, literal_vars(l)[k]),
        ) by {
            let v = literal_vars(l)[k];
            assert(has_key(env, literal_vars(lits[i])[k]));
            if v == name {
                lemma_keep_only(lookup(env, name), types);
            }
        }
        lemma_literal_typed_shrink(l, env, n, s);
    }
}

/// Adding a literal whose variables the new environment has keeps a clause well
/// formed, where the new environment keeps every name of the old.
pub proof fn lemma_push_literal_wf(c: ClauseModel, lit: LiteralModel, env: EnvModel)
    requires
        clause_wf(c),
        env_wf(env),
        forall|k: Seq<char>| has_key(c.env, k) ==> #[trigger] has_key(env, k),
        forall|k: int| 0 <= k < literal_vars(lit).len() ==> has_key(env, #[trigger] literal_vars(lit)[k]),
    ensures
        clause_wf(ClauseModel { literals: c.literals.push(lit), env }),
{
    let n = ClauseModel { literals: c.literals.push(lit), env };
    assert forall|i: int, k: int|
        0 <= i < n.literals.len() && 0 <= k < literal_vars(n.literals[i]).len() implies has_key(
        n.env,
        #[trigger] literal_vars(#[trigger] n.literals[i])[k],
    ) by {
        if i < c.literals.len() {
            assert(n.literals[i] == c.literals[i]);
            assert(has_key(c.env, literal_vars(c.literals[i])[k]));
        }
    }
}

/// The set a map gives for a label, or an empty one.
fn types_of(map: &TypeMap, label: &str) -> (r: TypeSet)
    requires
        map.wf(),
    ensures
        r@ == lookup(map@, label@),
        r.wf(),
{
    match map.get(label) {
        Some(t) => t.clone(),
        None => TypeSet::new(),
    }
}

impl Clause {
    /// The clause with `Isa(var, type_)` added; `var` may then have only `type_`
    /// and its subtypes.
    pub fn extend_with_isa(&self, var: &ClauseVariable, type_: &SchemaType, schema: &Schema) -> (r:
        Clause)
        requires
            well_typed(self@, schema@),
            schema.wf(),
            has_key(self@.env, var@) ==> lookup(self@.env, var@).contains(type_@),
        ensures
            r@ == isa_ext(self@, schema@, var@, type_@),
            clause_wf(r@),
            well_typed(r@, schema@),
            has_key(r@.env, var@),
            forall|x: Seq<char>| #[trigger]
                lookup(r@.env, var@).contains(x) ==> x == type_@ || lookup(
                    schema@.subtypes,
                    type_@,
                ).contains(x),
            has_key(self@.env, var@) ==> within(lookup(r@.env, var@), lookup(self@.env, var@)),
            forall|u: Seq<char>| u != var@ ==> #[trigger] lookup(r@.env, u) == lookup(self@.env, u),
            forall|u: Seq<char>| #[trigger] has_key(r@.env, u) <==> (has_key(self@.env, u) || u == var@),
    {
        let mut types = types_of(&schema.subtypes, type_.label());
        types.insert(type_.clone());
        proof {
            lemma_insert_label_contains(lookup(schema@.subtypes, type_@), type_@);
            assert(types@.contains(type_@));
            if has_key(self@.env, var@) {
                lemma_keep_only(lookup(self@.env, var@), types@);
                assert(keep_only(lookup(self@.env, var@), types@).contains(type_@));
            }
            lemma_env_narrow(self@.env, var@, types@);
        }
        let mut c = self.clone();
        c.conjunction.push(ClauseLiteral::Isa { instance: var.clone(), type_: type_.clone() });
        c.narrow(var, &types);
        proof {
            let lit = LiteralModel::Isa { instance: var@, type_: type_@ };
            assert(c@.literals =~= self@.literals.push(lit));
            assert(literal_vars(lit)[0] == var@);
            lemma_push_literal_wf(self@, lit, c@.env);
            lemma_keep_only(lookup(self@.env, var@), types@);
            lemma_narrow_keeps_typed(self@.literals, self@.env, var@, types@, schema@);
            lemma_env_narrow(self@.env, var@, types@);
            if has_key(self@.env, var@) {
                lemma_keep_only(lookup(self@.env, var@), types@);
            }
            assert(literal_typed(lit, c@.env, schema@));
            assert forall|i: int| 0 <= i < c@.literals.len() implies literal_typed(
                #[trigger] c@.literals[i],
                c@.env,
                schema@,
            ) by {
                if i < self@.literals.len() {
                    assert(c@.literals[i] == self@.literals[i]);
                }
            }
            if has_key(self@.env, var@) {
                lemma_keep_only(lookup(self@.env, var@), types@);
            }
        }
        c
    }

    /// The clause with `HasValue(owner, attr_type, value)` added; `owner` narrowed to
    /// the types that own `attr_type`.
    pub fn extend_with_has_value(
        &self,
        owner: &ClauseVariable,
        attr_type: &SchemaType,
        value: &AttributeValue,
        schema: &Schema,
    ) -> (r: Clause)
        requires
            well_typed(self@, schema@),
            schema.wf(),
            has_key(self@.env, owner@),
            may_have_any(self@.env, owner@, lookup(schema@.owners, attr_type@)),
        ensures
            r@ == has_value_ext(self@, schema@, owner@, attr_type@, value@),
            clause_wf(r@),
            well_typed(r@, schema@),
    {
        let types = types_of(&schema.owners, attr_type.label());
        proof {
            let x = choose|x: Seq<char>| #[trigger]
                lookup(self@.env, owner@).contains(x) && types@.contains(x);
            lemma_keep_only(lookup(self@.env, owner@), types@);
            assert(keep_only(lookup(self@.env, owner@), types@).contains(x));
            lemma_env_narrow(self@.env, owner@, types@);
        }
        let mut c = self.clone();
        c.conjunction.push(
            ClauseLiteral::HasValue { owner: owner.clone(), type_: attr_type.clone(), value: value.clone() },
        );
        c.narrow(owner, &types);
        proof {
            let lit = LiteralModel::HasValue { owner: owner@, type_: attr_type@, value: value@ };
            assert(c@.literals =~= self@.literals.push(lit));
            assert(literal_vars(lit)[0] == owner@);
            lemma_push_literal_wf(self@, lit, c@.env);
            lemma_narrow_keeps_typed(self@.literals, self@.env, owner@, types@, schema@);
            lemma_keep_only(lookup(self@.env, owner@), types@);
            assert(literal_typed(lit, c@.env, schema@));
            assert forall|i: int| 0 <= i < c@.literals.len() implies literal_typed(
                #[trigger] c@.literals[i],
                c@.env,
                schema@,
            ) by {
                if i < self@.literals.len() {
                    assert(c@.literals[i] == self@.literals[i]);
                }
            }
        }
        c
    }

    /// The clause with `Links(relation, role, p)` added for a fresh player `p`.
    pub fn extend_with_related_links(
        &self,
        relation: &ClauseVariable,
        role: &SchemaType,
        schema: &Schema,
    ) -> (r: Clause)
        requires
            well_typed(self@, schema@),
            schema.wf(),
            has_key(self@.env, relation@),
            may_have_any(self@.env, relation@, lookup(schema@.related_by, role@)),
            lookup(schema@.players, role@).len() > 0,
        ensures
            r@ == related_ext(self@, schema@, relation@, role@),
            clause_wf(r@),
            well_typed(r@, schema@),
    {
        let player = self.fresh_variable(role, None);
        let relation_types = types_of(&schema.related_by, role.label());
        let player_types = types_of(&schema.players, role.label());
        let ghost env1 = env_narrow(self@.env, relation@, relation_types@);
        proof {
            let x = choose|x: Seq<char>| #[trigger]
                lookup(self@.env, relation@).contains(x) && relation_types@.contains(x);
            lemma_keep_only(lookup(self@.env, relation@), relation_types@);
            assert(keep_only(lookup(self@.env, relation@), relation_types@).contains(x));
            lemma_env_narrow(self@.env, relation@, relation_types@);
            lemma_env_narrow(env1, player@, player_types@);
        }
        let mut c = self.clone();
        c.conjunction.push(
            ClauseLiteral::Links { relation: relation.clone(), role: role.clone(), player: player.clone() },
        );
        c.narrow(relation, &relation_types);
        c.narrow(&player, &player_types);
        proof {
            let lit = LiteralModel::Links { relation: relation@, role: role@, player: player@ };
            assert(c@.literals =~= self@.literals.push(lit));
            assert(literal_vars(lit)[0] == relation@);
            assert(literal_vars(lit)[1] == player@);
            lemma_push_literal_wf(self@, lit, c@.env);
            lemma_narrow_keeps_typed(self@.literals, self@.env, relation@, relation_types@, schema@);
            lemma_env_narrow(self@.env, relation@, relation_types@);
            lemma_narrow_keeps_typed(self@.literals, env1, player@, player_types@, schema@);
            lemma_env_narrow(env1, player@, player_types@);
            lemma_keep_only(lookup(self@.env, relation@), relation_types@);
            assert(lookup(c@.env, relation@) == keep_only(lookup(self@.env, relation@), relation_types@));
            assert(lookup(c@.env, player@) == player_types@);
            assert(literal_typed(lit, c@.env, schema@));
            assert forall|i: int| 0 <= i < c@.literals.len() implies literal_typed(
                #[trigger] c@.literals[i],
                c@.env,
                schema@,
            ) by {
                if i < self@.literals.len() {
                    assert(c@.literals[i] == self@.literals[i]);
                }
            }
        }
        c
    }

    /// The clause with `Links(q, role, player)` added for a fresh relation `q`.
    pub fn extend_with_played_links(
        &self,
        player: &ClauseVariable,
        role: &SchemaType,
        schema: &Schema,
    ) -> (r: Clause)
        requires
            well_typed(self@, schema@),
            schema.wf(),
            has_key(self@.env, player@),
            may_have_any(self@.env, player@, lookup(schema@.players, role@)),
            lookup(schema@.related_by, role@).len() > 0,
        ensures
            r@ == played_ext(self@, schema@, player@, role@),
            clause_wf(r@),
            well_typed(r@, schema@),
    {
        let relation = self.fresh_variable(role, Some("rel"));
        let player_types = types_of(&schema.players, role.label());
        let relation_types = types_of(&schema.related_by, role.label());
        let ghost env1 = env_narrow(self@.env, player@, player_types@);
        proof {
            let x = choose|x: Seq<char>| #[trigger]
                lookup(self@.env, player@).contains(x) && player_types@.contains(x);
            lemma_keep_only(lookup(self@.env, player@), player_types@);
            assert(keep_only(lookup(self@.env, player@), player_types@).contains(x));
            lemma_env_narrow(self@.env, player@, player_types@);
            lemma_env_narrow(env1, relation@, relation_types@);
        }
        let mut c = self.clone();
        c.conjunction.push(
            ClauseLiteral::Links { relation: relation.clone(), role: role.clone(), player: player.clone() },
        );
        c.narrow(player, &player_types);
        c.narrow(&relation, &relation_types);
        proof {
            let lit = LiteralModel::Links { relation: relation@, role: role@, player: player@ };
            assert(c@.literals =~= self@.literals.push(lit));
            assert(literal_vars(lit)[0] == relation@);
            assert(literal_vars(lit)[1] == player@);
            lemma_push_literal_wf(self@, lit, c@.env);
            lemma_narrow_keeps_typed(self@.literals, self@.env, player@, player_types@, schema@);
            lemma_env_narrow(self@.env, player@, player_types@);
            lemma_narrow_keeps_typed(self@.literals, env1, relation@, relation_types@, schema@);
            lemma_env_narrow(env1, relation@, relation_types@);
            lemma_keep_only(lookup(self@.env, player@), player_types@);
            assert(lookup(c@.env, player@) == keep_only(lookup(self@.env, player@), player_types@));
            assert(lookup(c@.env, relation@) == relation_types@);
            assert(literal_typed(lit, c@.env, schema@));
            assert forall|i: int| 0 <= i < c@.literals.len() implies literal_typed(
                #[trigger] c@.literals[i],
                c@.env,
                schema@,
            ) by {
                if i < self@.literals.len() {
                    assert(c@.literals[i] == self@.literals[i]);
                }
            }
        }
        c
    }
}

pub open spec fn clause_views(s: Seq<Clause>) -> Seq<ClauseModel> {
    s.map_values(|c: Clause| c@)
}

/// Every clause of `s` is well typed against `sch`.
pub open spec fn all_wf(s: Seq<ClauseModel>, sch: SchemaModel) -> bool {
    forall|i: int| 0 <= i < s.len() ==> well_typed(#[trigger] s[i], sch)
}

/// `Isa(v, t)` for each `t` of `ts`, in order.
pub open spec fn isa_list(c: ClauseModel, s: SchemaModel, v: Seq<char>, ts: Seq<Seq<char>>) -> Seq<
    ClauseModel,
>
    decreases ts.len(),
{
    if ts.len() == 0 {
        Seq::empty()
    } else {
        isa_list(c, s, v, ts.drop_last()).push(isa_ext(c, s, v, ts.last()))
    }
}

/// `HasValue(v, a, x)` for each `x` of `xs`, in order.
pub open spec fn value_list(
    c: ClauseModel,
    s: SchemaModel,
    v: Seq<char>,
    a: Seq<char>,
    xs: Seq<Seq<char>>,
) -> Seq<ClauseModel>
    decreases xs.len(),
{
    if xs.len() == 0 {
        Seq::empty()
    } else {
        value_list(c, s, v, a, xs.drop_last()).push(has_value_ext(c, s, v, a, xs.last()))
    }
}

/// For each attribute type `a` of `attrs`, `HasValue(v, a, x)` for each observed
/// value `x` of `a`.
pub open spec fn attrs_values(c: ClauseModel, s: SchemaModel, v: Seq<char>, attrs: Seq<Seq<char>>) -> Seq<
    ClauseModel,
>
    decreases attrs.len(),
{
    if attrs.len() == 0 {
        Seq::empty()
    } else {
        attrs_values(c, s, v, attrs.drop_last()) + value_list(
            c,
            s,
            v,
            attrs.last(),
            lookup(s.categorical, attrs.last()),
        )
    }
}

/// For each type `t` of `ts`, the categorical refinements of the attribute types
/// that `t` owns.
pub open spec fn types_values(c: ClauseModel, s: SchemaModel, v: Seq<char>, ts: Seq<Seq<char>>) -> Seq<
    ClauseModel,
>
    decreases ts.len(),
{
    if ts.len() == 0 {
        Seq::empty()
    } else {
        types_values(c, s, v, ts.drop_last()) + attrs_values(c, s, v, lookup(s.owns, ts.last()))
    }
}

/// `Links(v, r, _)` for each role `r` of `roles`.
pub open spec fn related_list(c: ClauseModel, s: SchemaModel, v: Seq<char>, roles: Seq<Seq<char>>) -> Seq<
    ClauseModel,
>
    decreases roles.len(),
{
    if roles.len() == 0 {
        Seq::empty()
    } else {
        related_list(c, s, v, roles.drop_last()).push(related_ext(c, s, v, roles.last()))
    }
}

/// For each type `t` of `ts`, `Links(v, r, _)` for each role `r` that `t` relates.
pub open spec fn types_related(c: ClauseModel, s: SchemaModel, v: Seq<char>, ts: Seq<Seq<char>>) -> Seq<
    ClauseModel,
>
    decreases ts.len(),
{
    if ts.len() == 0 {
        Seq::empty()
    } else {
        types_related(c, s, v, ts.drop_last()) + related_list(c, s, v, lookup(s.relates, ts.last()))
    }
}

/// `Links(_, r, v)` for each role `r` of `roles`.
pub open spec fn played_list(c: ClauseModel, s: SchemaModel, v: Seq<char>, roles: Seq<Seq<char>>) -> Seq<
    ClauseModel,
>
    decreases roles.len(),
{
    if roles.len() == 0 {
        Seq::empty()
    } else {
        played_list(c, s, v, roles.drop_last()).push(played_ext(c, s, v, roles.last()))
    }
}

/// For each type `t` of `ts`, `Links(_, r, v)` for each role `r` that `t` plays.
pub open spec fn types_played(c: ClauseModel, s: SchemaModel, v: Seq<char>, ts: Seq<Seq<char>>) -> Seq<
    ClauseModel,
>
    decreases ts.len(),
{
    if ts.len() == 0 {
        Seq::empty()
    } else {
        types_played(c, s, v, ts.drop_last()) + played_list(c, s, v, lookup(s.plays, ts.last()))
    }
}

/// Which of the optional kinds of refinement to make.
#[derive(Clone, Copy, Debug, PartialEq, Eq, Structural)]
pub struct RefinementOptions {
    /// `Has(v, a, x)` for each attribute type `a` that a type of `v` owns.
    pub attribute_ownership: bool,
    /// `u cmp w` for each two variables that may share a type.
    pub variable_comparisons: bool,
}

/// `Has(v, a, _)` for each attribute type `a` of `attrs`.
pub open spec fn has_list(c: ClauseModel, s: SchemaModel, v: Seq<char>, attrs: Seq<Seq<char>>) -> Seq<
    ClauseModel,
>
    decreases attrs.len(),
{
    if attrs.len() == 0 {
        Seq::empty()
    } else {
        has_list(c, s, v, attrs.drop_last()).push(has_ext(c, s, v, attrs.last()))
    }
}

/// For each type `t` of `ts`, `Has(v, a, _)` for each attribute type `a` that `t`
/// owns.
pub open spec fn types_has(c: ClauseModel, s: SchemaModel, v: Seq<char>, ts: Seq<Seq<char>>) -> Seq<
    ClauseModel,
>
    decreases ts.len(),
{
    if ts.len() == 0 {
        Seq::empty()
    } else {
        types_has(c, s, v, ts.drop_last()) + has_list(c, s, v, lookup(s.owns, ts.last()))
    }
}

/// The refinements on one variable `v` with types `ts`: type specialisation where
/// `v` may have more than one type, then (if asked for) attribute ownership, then
/// categorical values, then the relations `v` may be, then the roles `v` may play.
pub open spec fn var_refinements(
    c: ClauseModel,
    s: SchemaModel,
    o: RefinementOptions,
    v: Seq<char>,
    ts: Seq<Seq<char>>,
) -> Seq<ClauseModel> {
    (if ts.len() > 1 {
        isa_list(c, s, v, ts)
    } else {
        Seq::empty()
    }) + (if o.attribute_ownership {
        types_has(c, s, v, ts)
    } else {
        Seq::empty()
    }) + types_values(c, s, v, ts) + types_related(c, s, v, ts) + types_played(c, s, v, ts)
}

/// The refinements on each variable of `env`, in order.
pub open spec fn env_refinements(c: ClauseModel, s: SchemaModel, o: RefinementOptions, env: EnvModel) -> Seq<
    ClauseModel,
>
    decreases env.len(),
{
    if env.len() == 0 {
        Seq::empty()
    } else {
        env_refinements(c, s, o, env.drop_last()) + var_refinements(
            c,
            s,
            o,
            env.last().0,
            env.last().1,
        )
    }
}

/// Whether two sets of types share a member.
pub open spec fn intersects(a: Seq<Seq<char>>, b: Seq<Seq<char>>) -> bool {
    exists|x: Seq<char>| #[trigger] a.contains(x) && b.contains(x)
}

/// `c` extended by `u cmp w`.
pub open spec fn comparison_ext(c: ClauseModel, u: Seq<char>, cmp: ValueComparator, w: Seq<char>) -> ClauseModel {
    ClauseModel {
        literals: c.literals.push(LiteralModel::CompareVariables { lhs: u, comparator: cmp, rhs: w }),
        env: c.env,
    }
}

/// The comparisons of the variables at `i` and `j`, in the order `==`, `!=`, `<=`,
/// `>=`, where they may share a type.
pub open spec fn pair_comparisons(c: ClauseModel, i: int, j: int) -> Seq<ClauseModel> {
    if intersects(c.env[i].1, c.env[j].1) {
        seq![
            comparison_ext(c, c.env[i].0, ValueComparator::Eq, c.env[j].0),
            comparison_ext(c, c.env[i].0, ValueComparator::Neq, c.env[j].0),
            comparison_ext(c, c.env[i].0, ValueComparator::Lte, c.env[j].0),
            comparison_ext(c, c.env[i].0, ValueComparator::Gte, c.env[j].0),
        ]
    } else {
        Seq::empty()
    }
}

/// The comparisons of the variable at `i` with each later one before `j`.
pub open spec fn row_comparisons(c: ClauseModel, i: int, j: int) -> Seq<ClauseModel>
    decreases j - i,
{
    if j <= i + 1 {
        Seq::empty()
    } else {
        row_comparisons(c, i, j - 1) + pair_comparisons(c, i, j - 1)
    }
}

/// The comparisons of each variable before `n` with each later one.
pub open spec fn all_comparisons(c: ClauseModel, n: int) -> Seq<ClauseModel>
    decreases n,
{
    if n <= 0 {
        Seq::empty()
    } else {
        all_comparisons(c, n - 1) + row_comparisons(c, n - 1, c.env.len() as int)
    }
}

/// The one-literal refinements of `c` with these options: those on each of its
/// variables, in the order of their names, then (if asked for) the comparisons of
/// each two variables that may share a type.
pub open spec fn refinements_with(c: ClauseModel, s: SchemaModel, o: RefinementOptions) -> Seq<
    ClauseModel,
> {
    env_refinements(c, s, o, c.env) + if o.variable_comparisons {
        all_comparisons(c, c.env.len() as int)
    } else {
        Seq::empty()
    }
}

/// The options of `refine`: no attribute ownership, no comparisons.
pub open spec fn default_options() -> RefinementOptions {
    RefinementOptions { attribute_ownership: false, variable_comparisons: false }
}

/// The one-literal refinements of `c` that `refine` makes.
pub open spec fn refinements(c: ClauseModel, s: SchemaModel) -> Seq<ClauseModel> {
    refinements_with(c, s, default_options())
}

proof fn lemma_views_push(out: Seq<Clause>, c: Clause)
    ensures
        clause_views(out.push(c)) == clause_views(out).push(c@),
{
    assert(clause_views(out.push(c)) =~= clause_views(out).push(c@));
}

impl Clause {
    fn push_isa(&self, v: &ClauseVariable, ts: &TypeSet, schema: &Schema, out: &mut Vec<Clause>)
        requires
            well_typed(self@, schema@),
            schema.wf(),
            has_key(self@.env, v@),
            ts@ == lookup(self@.env, v@),
            all_wf(clause_views(old(out)@), schema@),
        ensures
            clause_views(final(out)@) == clause_views(old(out)@) + isa_list(self@, schema@, v@, ts@),
            all_wf(clause_views(final(out)@), schema@),
    {
        let ghost start = clause_views(out@);
        let mut j: usize = 0;
        assert(ts@.take(0) =~= Seq::<Seq<char>>::empty());
        assert(start + Seq::<ClauseModel>::empty() =~= start);
        while j < ts.len()
            invariant
                j <= ts@.len(),
                well_typed(self@, schema@),
                schema.wf(),
                has_key(self@.env, v@),
                ts@ == lookup(self@.env, v@),
                clause_views(out@) == start + isa_list(self@, schema@, v@, ts@.take(j as int)),
                all_wf(clause_views(out@), schema@),
            decreases ts@.len() - j,
        {
            let t = ts.get(j);
            assert(ts@.contains(t@));
            let r = self.extend_with_isa(v, t, schema);
            let ghost before = out@;
            out.push(r);
            proof {
                lemma_views_push(before, r);
                assert(ts@.take(j + 1).drop_last() =~= ts@.take(j as int));
                assert(ts@.take(j + 1).last() == t@);
                assert(start + isa_list(self@, schema@, v@, ts@.take(j + 1)) =~= (start + isa_list(
                    self@,
                    schema@,
                    v@,
                    ts@.take(j as int),
                )).push(r@));
                assert forall|i: int| 0 <= i < clause_views(out@).len() implies well_typed(
                    #[trigger] clause_views(out@)[i],
                    schema@,
                ) by {
                    if i < before.len() {
                        assert(clause_views(out@)[i] == clause_views(before)[i]);
                    }
                }
            }
            j = j + 1;
        }
        assert(ts@.take(j as int) =~= ts@);
    }

    fn push_values(
        &self,
        v: &ClauseVariable,
        a: &SchemaType,
        xs: &Vec<AttributeValue>,
        schema: &Schema,
        out: &mut Vec<Clause>,
    )
        requires
            well_typed(self@, schema@),
            schema.wf(),
            has_key(self@.env, v@),
            may_have_any(self@.env, v@, lookup(schema@.owners, a@)),
            all_wf(clause_views(old(out)@), schema@),
        ensures
            clause_views(final(out)@) == clause_views(old(out)@) + value_list(
                self@,
                schema@,
                v@,
                a@,
                values_of(xs@),
            ),
            all_wf(clause_views(final(out)@), schema@),
    {
        let ghost start = clause_views(out@);
        let ghost vs = values_of(xs@);
        let mut j: usize = 0;
        assert(vs.take(0) =~= Seq::<Seq<char>>::empty());
        assert(start + Seq::<ClauseModel>::empty() =~= start);
        while j < xs.len()
            invariant
                j <= xs@.len(),
                vs == values_of(xs@),
                well_typed(self@, schema@),
                schema.wf(),
                has_key(self@.env, v@),
                may_have_any(self@.env, v@, lookup(schema@.owners, a@)),
                clause_views(out@) == start + value_list(self@, schema@, v@, a@, vs.take(j as int)),
                all_wf(clause_views(out@), schema@),
            decreases xs@.len() - j,
        {
            let r = self.extend_with_has_value(v, a, &xs[j], schema);
            let ghost before = out@;
            out.push(r);
            proof {
                lemma_views_push(before, r);
                assert(vs.take(j + 1).drop_last() =~= vs.take(j as int));
                assert(vs.take(j + 1).last() == xs@[j as int]@);
                assert(start + value_list(self@, schema@, v@, a@, vs.take(j + 1)) =~= (start
                    + value_list(self@, schema@, v@, a@, vs.take(j as int))).push(r@));
                assert forall|i: int| 0 <= i < clause_views(out@).len() implies well_typed(
                    #[trigger] clause_views(out@)[i],
                    schema@,
                ) by {
                    if i < before.len() {
                        assert(clause_views(out@)[i] == clause_views(before)[i]);
                    }
                }
            }
            j = j + 1;
        }
        assert(vs.take(j as int) =~= vs);
    }

    /// The categorical refinements of the attribute types `attrs` that the type `t`
    /// of `v` owns.
    fn push_attrs_values(
        &self,
        v: &ClauseVariable,
        t: &SchemaType,
        attrs: &TypeSet,
        schema: &Schema,
        out: &mut Vec<Clause>,
    )
        requires
            well_typed(self@, schema@),
            schema.wf(),
            has_key(self@.env, v@),
            lookup(self@.env, v@).contains(t@),
            attrs@ == lookup(schema@.owns, t@),
            all_wf(clause_views(old(out)@), schema@),
        ensures
            clause_views(final(out)@) == clause_views(old(out)@) + attrs_values(
                self@,
                schema@,
                v@,
                attrs@,
            ),
            all_wf(clause_views(final(out)@), schema@),
    {
        let ghost start = clause_views(out@);
        let mut k: usize = 0;
        assert(attrs@.take(0) =~= Seq::<Seq<char>>::empty());
        assert(start + Seq::<ClauseModel>::empty() =~= start);
        while k < attrs.len()
            invariant
                k <= attrs@.len(),
                well_typed(self@, schema@),
                schema.wf(),
                has_key(self@.env, v@),
                lookup(self@.env, v@).contains(t@),
                attrs@ == lookup(schema@.owns, t@),
                clause_views(out@) == start + attrs_values(self@, schema@, v@, attrs@.take(k as int)),
                all_wf(clause_views(out@), schema@),
            decreases attrs@.len() - k,
        {
            let a = attrs.get(k);
            assert(attrs@.contains(a@));
            assert(lookup(schema@.owners, a@).contains(t@));
            assert(lookup(self@.env, v@).contains(t@) && lookup(schema@.owners, a@).contains(t@));
            let ghost mid = clause_views(out@);
            match schema.categorical_attribute_values.get(a.label()) {
                Some(xs) => {
                    self.push_values(v, a, xs, schema, out);
                },
                None => {
                    assert(value_list(self@, schema@, v@, a@, Seq::<Seq<char>>::empty())
                        =~= Seq::<ClauseModel>::empty());
                    assert(mid + Seq::<ClauseModel>::empty() =~= mid);
                },
            }
            proof {
                assert(attrs@.take(k + 1).drop_last() =~= attrs@.take(k as int));
                assert(attrs@.take(k + 1).last() == a@);
                assert(start + attrs_values(self@, schema@, v@, attrs@.take(k + 1)) =~= start
                    + attrs_values(self@, schema@, v@, attrs@.take(k as int)) + value_list(
                    self@,
                    schema@,
                    v@,
                    a@,
                    lookup(schema@.categorical, a@),
                ));
            }
            k = k + 1;
        }
        assert(attrs@.take(k as int) =~= attrs@);
    }

    fn push_related(
        &self,
        v: &ClauseVariable,
        t: &SchemaType,
        roles: &TypeSet,
        schema: &Schema,
        out: &mut Vec<Clause>,
    )
        requires
            well_typed(self@, schema@),
            schema.wf(),
            has_key(self@.env, v@),
            lookup(self@.env, v@).contains(t@),
            roles@ == lookup(schema@.relates, t@),
            all_wf(clause_views(old(out)@), schema@),
        ensures
            clause_views(final(out)@) == clause_views(old(out)@) + related_list(
                self@,
                schema@,
                v@,
                roles@,
            ),
            all_wf(clause_views(final(out)@), schema@),
    {
        let ghost start = clause_views(out@);
        let mut k: usize = 0;
        assert(roles@.take(0) =~= Seq::<Seq<char>>::empty());
        assert(start + Seq::<ClauseModel>::empty() =~= start);
        while k < roles.len()
            invariant
                k <= roles@.len(),
                well_typed(self@, schema@),
                schema.wf(),
                has_key(self@.env, v@),
                lookup(self@.env, v@).contains(t@),
                roles@ == lookup(schema@.relates, t@),
                clause_views(out@) == start + related_list(self@, schema@, v@, roles@.take(k as int)),
                all_wf(clause_views(out@), schema@),
            decreases roles@.len() - k,
        {
            let r = roles.get(k);
            assert(roles@.contains(r@));
            assert(lookup(schema@.related_by, r@).contains(t@));
            assert(lookup(self@.env, v@).contains(t@) && lookup(schema@.related_by, r@).contains(t@));
            let c = self.extend_with_related_links(v, r, schema);
            let ghost before = out@;
            out.push(c);
            proof {
                lemma_views_push(before, c);
                assert(roles@.take(k + 1).drop_last() =~= roles@.take(k as int));
                assert(roles@.take(k + 1).last() == r@);
                assert(start + related_list(self@, schema@, v@, roles@.take(k + 1)) =~= (start
                    + related_list(self@, schema@, v@, roles@.take(k as int))).push(c@));
                assert forall|i: int| 0 <= i < clause_views(out@).len() implies well_typed(
                    #[trigger] clause_views(out@)[i],
                    schema@,
                ) by {
                    if i < before.len() {
                        assert(clause_views(out@)[i] == clause_views(before)[i]);
                    }
                }
            }
            k = k + 1;
        }
        assert(roles@.take(k as int) =~= roles@);
    }

    fn push_played(
        &self,
        v: &ClauseVariable,
        t: &SchemaType,
        roles: &TypeSet,
        schema: &Schema,
        out: &mut Vec<Clause>,
    )
        requires
            well_typed(self@, schema@),
            schema.wf(),
            has_key(self@.env, v@),
            lookup(self@.env, v@).contains(t@),
            roles@ == lookup(schema@.plays, t@),
            all_wf(clause_views(old(out)@), schema@),
        ensures
            clause_views(final(out)@) == clause_views(old(out)@) + played_list(
                self@,
                schema@,
                v@,
                roles@,
            ),
            all_wf(clause_views(final(out)@), schema@),
    {
        let ghost start = clause_views(out@);
        let mut k: usize = 0;
        assert(roles@.take(0) =~= Seq::<Seq<char>>::empty());
        assert(start + Seq::<ClauseModel>::empty() =~= start);
        while k < roles.len()
            invariant
                k <= roles@.len(),
                well_typed(self@, schema@),
                schema.wf(),
                has_key(self@.env, v@),
                lookup(self@.env, v@).contains(t@),
                roles@ == lookup(schema@.plays, t@),
                clause_views(out@) == start + played_list(self@, schema@, v@, roles@.take(k as int)),
                all_wf(clause_views(out@), schema@),
            decreases roles@.len() - k,
        {
            let r = roles.get(k);
            assert(roles@.contains(r@));
            assert(lookup(schema@.players, r@).contains(t@));
            assert(lookup(self@.env, v@).contains(t@) && lookup(schema@.players, r@).contains(t@));
            let c = self.extend_with_played_links(v, r, schema);
            let ghost before = out@;
            out.push(c);
            proof {
                lemma_views_push(before, c);
                assert(roles@.take(k + 1).drop_last() =~= roles@.take(k as int));
                assert(roles@.take(k + 1).last() == r@);
                assert(start + played_list(self@, schema@, v@, roles@.take(k + 1)) =~= (start
                    + played_list(self@, schema@, v@, roles@.take(k as int))).push(c@));
                assert forall|i: int| 0 <= i < clause_views(out@).len() implies well_typed(
                    #[trigger] clause_views(out@)[i],
                    schema@,
                ) by {
                    if i < before.len() {
                        assert(clause_views(out@)[i] == clause_views(before)[i]);
                    }
                }
            }
            k = k + 1;
        }
        assert(roles@.take(k as int) =~= roles@);
    }
}

impl Clause {
    /// The refinements on the variable `v`, whose types are `ts`.
    fn push_var_refinements(
        &self,
        v: &ClauseVariable,
        ts: &TypeSet,
        schema: &Schema,
        opts: RefinementOptions,
        out: &mut Vec<Clause>,
    )
        requires
            well_typed(self@, schema@),
            schema.wf(),
            has_key(self@.env, v@),
            ts@ == lookup(self@.env, v@),
            all_wf(clause_views(old(out)@), schema@),
        ensures
            clause_views(final(out)@) == clause_views(old(out)@) + var_refinements(
                self@,
                schema@,
                opts,
                v@,
                ts@,
            ),
            all_wf(clause_views(final(out)@), schema@),
    {
        let ghost c = self@;
        let ghost sm = schema@;
        let ghost start = clause_views(out@);
        if ts.len() > 1 {
            self.push_isa(v, ts, schema, out);
        } else {
            assert(start + Seq::<ClauseModel>::empty() =~= start);
        }
        let ghost s0 = clause_views(out@);
        if opts.attribute_ownership {
            let mut j: usize = 0;
            assert(ts@.take(0) =~= Seq::<Seq<char>>::empty());
            assert(s0 + Seq::<ClauseModel>::empty() =~= s0);
            while j < ts.len()
                invariant
                    j <= ts@.len(),
                    c == self@,
                    sm == schema@,
                    well_typed(self@, schema@),
                    schema.wf(),
                    has_key(self@.env, v@),
                    ts@ == lookup(self@.env, v@),
                    clause_views(out@) == s0 + types_has(c, sm, v@, ts@.take(j as int)),
                    all_wf(clause_views(out@), schema@),
                decreases ts@.len() - j,
            {
                let t = ts.get(j);
                assert(ts@.contains(t@));
                let ghost mid = clause_views(out@);
                match schema.owns.get(t.label()) {
                    Some(attrs) => self.push_has(v, t, attrs, schema, out),
                    None => {
                        assert(has_list(c, sm, v@, Seq::<Seq<char>>::empty()) =~= Seq::<
                            ClauseModel,
                        >::empty());
                        assert(mid + Seq::<ClauseModel>::empty() =~= mid);
                    },
                }
                assert(ts@.take(j + 1).drop_last() =~= ts@.take(j as int));
                assert(ts@.take(j + 1).last() == t@);
                assert(s0 + types_has(c, sm, v@, ts@.take(j + 1)) =~= s0 + types_has(
                    c,
                    sm,
                    v@,
                    ts@.take(j as int),
                ) + has_list(c, sm, v@, lookup(sm.owns, t@)));
                j = j + 1;
            }
            assert(ts@.take(j as int) =~= ts@);
        } else {
            assert(s0 + Seq::<ClauseModel>::empty() =~= s0);
        }
        let ghost s1 = clause_views(out@);
        let mut j: usize = 0;
        assert(ts@.take(0) =~= Seq::<Seq<char>>::empty());
        assert(s1 + Seq::<ClauseModel>::empty() =~= s1);
        while j < ts.len()
            invariant
                j <= ts@.len(),
                c == self@,
                sm == schema@,
                well_typed(self@, schema@),
                schema.wf(),
                has_key(self@.env, v@),
                ts@ == lookup(self@.env, v@),
                clause_views(out@) == s1 + types_values(c, sm, v@, ts@.take(j as int)),
                all_wf(clause_views(out@), schema@),
            decreases ts@.len() - j,
        {
            let t = ts.get(j);
            assert(ts@.contains(t@));
            let ghost mid = clause_views(out@);
            match schema.owns.get(t.label()) {
                Some(attrs) => self.push_attrs_values(v, t, attrs, schema, out),
                None => {
                    assert(attrs_values(c, sm, v@, Seq::<Seq<char>>::empty()) =~= Seq::<
                        ClauseModel,
                    >::empty());
                    assert(mid + Seq::<ClauseModel>::empty() =~= mid);
                },
            }
            assert(ts@.take(j + 1).drop_last() =~= ts@.take(j as int));
            assert(ts@.take(j + 1).last() == t@);
            assert(s1 + types_values(c, sm, v@, ts@.take(j + 1)) =~= s1 + types_values(
                c,
                sm,
                v@,
                ts@.take(j as int),
            ) + attrs_values(c, sm, v@, lookup(sm.owns, t@)));
            j = j + 1;
        }
        assert(ts@.take(j as int) =~= ts@);
        let ghost s2 = clause_views(out@);
        let mut j: usize = 0;
        assert(s2 + Seq::<ClauseModel>::empty() =~= s2);
        while j < ts.len()
            invariant
                j <= ts@.len(),
                c == self@,
                sm == schema@,
                well_typed(self@, schema@),
                schema.wf(),
                has_key(self@.env, v@),
                ts@ == lookup(self@.env, v@),
                clause_views(out@) == s2 + types_related(c, sm, v@, ts@.take(j as int)),
                all_wf(clause_views(out@), schema@),
            decreases ts@.len() - j,
        {
            let t = ts.get(j);
            assert(ts@.contains(t@));
            let ghost mid = clause_views(out@);
            match schema.relates.get(t.label()) {
                Some(roles) => self.push_related(v, t, roles, schema, out),
                None => {
                    assert(related_list(c, sm, v@, Seq::<Seq<char>>::empty()) =~= Seq::<
                        ClauseModel,
                    >::empty());
                    assert(mid + Seq::<ClauseModel>::empty() =~= mid);
                },
            }
            assert(ts@.take(j + 1).drop_last() =~= ts@.take(j as int));
            assert(ts@.take(j + 1).last() == t@);
            assert(s2 + types_related(c, sm, v@, ts@.take(j + 1)) =~= s2 + types_related(
                c,
                sm,
                v@,
                ts@.take(j as int),
            ) + related_list(c, sm, v@, lookup(sm.relates, t@)));
            j = j + 1;
        }
        assert(ts@.take(j as int) =~= ts@);
        let ghost s3 = clause_views(out@);
        let mut j: usize = 0;
        assert(s3 + Seq::<ClauseModel>::empty() =~= s3);
        while j < ts.len()
            invariant
                j <= ts@.len(),
                c == self@,
                sm == schema@,
                well_typed(self@, schema@),
                schema.wf(),
                has_key(self@.env, v@),
                ts@ == lookup(self@.env, v@),
                clause_views(out@) == s3 + types_played(c, sm, v@, ts@.take(j as int)),
                all_wf(clause_views(out@), schema@),
            decreases ts@.len() - j,
        {
            let t = ts.get(j);
            assert(ts@.contains(t@));
            let ghost mid = clause_views(out@);
            match schema.plays.get(t.label()) {
                Some(roles) => self.push_played(v, t, roles, schema, out),
                None => {
                    assert(played_list(c, sm, v@, Seq::<Seq<char>>::empty()) =~= Seq::<
                        ClauseModel,
                    >::empty());
                    assert(mid + Seq::<ClauseModel>::empty() =~= mid);
                },
            }
            assert(ts@.take(j + 1).drop_last() =~= ts@.take(j as int));
            assert(ts@.take(j + 1).last() == t@);
            assert(s3 + types_played(c, sm, v@, ts@.take(j + 1)) =~= s3 + types_played(
                c,
                sm,
                v@,
                ts@.take(j as int),
            ) + played_list(c, sm, v@, lookup(sm.plays, t@)));
            j = j + 1;
        }
        assert(ts@.take(j as int) =~= ts@);
        assert(clause_views(out@) =~= start + var_refinements(c, sm, opts, v@, ts@));
    }

    /// All one-literal refinements of this clause with these options (see
    /// `refinements_with`), each a well-typed clause.
    pub fn refine_with(&self, language: &HypothesisLanguage, opts: RefinementOptions) -> (r: Vec<
        Clause,
    >)
        requires
            well_typed(self@, language.schema@),
            language.schema.wf(),
        ensures
            clause_views(r@) == refinements_with(self@, language.schema@, opts),
            all_wf(clause_views(r@), language.schema@),
    {
        let schema = &language.schema;
        let mut out: Vec<Clause> = Vec::new();
        let ghost c = self@;
        let ghost sm = schema@;
        assert(clause_views(out@) =~= Seq::<ClauseModel>::empty());
        assert(c.env.take(0) =~= EnvModel::empty());
        let mut i: usize = 0;
        while i < self.types_.len()
            invariant
                i <= self.types_.len(),
                c == self@,
                sm == schema@,
                well_typed(self@, schema@),
                schema.wf(),
                clause_views(out@) == env_refinements(c, sm, opts, c.env.take(i as int)),
                all_wf(clause_views(out@), schema@),
            decreases self.types_.len() - i,
        {
            let v = &self.types_[i].0;
            let ts = &self.types_[i].1;
            proof {
                assert(c.env[i as int] == (v@, ts@));
                lemma_env_lookup(c.env, i as int);
                assert(has_key(c.env, v@));
            }
            self.push_var_refinements(v, ts, schema, opts, &mut out);
            assert(c.env.take(i + 1).drop_last() =~= c.env.take(i as int));
            assert(c.env.take(i + 1).last() == c.env[i as int]);
            i = i + 1;
        }
        assert(c.env.take(i as int) =~= c.env);
        let ghost before = clause_views(out@);
        if opts.variable_comparisons {
            self.push_comparisons(schema, &mut out);
        } else {
            assert(before + Seq::<ClauseModel>::empty() =~= before);
        }
        out
    }

    /// All one-literal refinements of this clause (see `refinements`), each a
    /// well-typed clause: no attribute ownership, no comparisons.
    pub fn refine(&self, language: &HypothesisLanguage) -> (r: Vec<Clause>)
        requires
            well_typed(self@, language.schema@),
            language.schema.wf(),
        ensures
            clause_views(r@) == refinements(self@, language.schema@),
            all_wf(clause_views(r@), language.schema@),
    {
        self.refine_with(
            language,
            RefinementOptions { attribute_ownership: false, variable_comparisons: false },
        )
    }

    fn push_has(
        &self,
        v: &ClauseVariable,
        t: &SchemaType,
        attrs: &TypeSet,
        schema: &Schema,
        out: &mut Vec<Clause>,
    )
        requires
            well_typed(self@, schema@),
            schema.wf(),
            has_key(self@.env, v@),
            lookup(self@.env, v@).contains(t@),
            attrs@ == lookup(schema@.owns, t@),
            all_wf(clause_views(old(out)@), schema@),
        ensures
            clause_views(final(out)@) == clause_views(old(out)@) + has_list(self@, schema@, v@, attrs@),
            all_wf(clause_views(final(out)@), schema@),
    {
        let ghost start = clause_views(out@);
        let mut k: usize = 0;
        assert(attrs@.take(0) =~= Seq::<Seq<char>>::empty());
        assert(start + Seq::<ClauseModel>::empty() =~= start);
        while k < attrs.len()
            invariant
                k <= attrs@.len(),
                well_typed(self@, schema@),
                schema.wf(),
                has_key(self@.env, v@),
                lookup(self@.env, v@).contains(t@),
                attrs@ == lookup(schema@.owns, t@),
                clause_views(out@) == start + has_list(self@, schema@, v@, attrs@.take(k as int)),
                all_wf(clause_views(out@), schema@),
            decreases attrs@.len() - k,
        {
            let a = attrs.get(k);
            assert(attrs@.contains(a@));
            assert(lookup(schema@.owners, a@).contains(t@));
            assert(lookup(self@.env, v@).contains(t@) && lookup(schema@.owners, a@).contains(t@));
            let c = self.extend_with_has(v, a, schema);
            let ghost before = out@;
            out.push(c);
            proof {
                lemma_views_push(before, c);
                assert(attrs@.take(k + 1).drop_last() =~= attrs@.take(k as int));
                assert(attrs@.take(k + 1).last() == a@);
                assert(start + has_list(self@, schema@, v@, attrs@.take(k + 1)) =~= (start + has_list(
                    self@,
                    schema@,
                    v@,
                    attrs@.take(k as int),
                )).push(c@));
                assert forall|i: int| 0 <= i < clause_views(out@).len() implies well_typed(
                    #[trigger] clause_views(out@)[i],
                    schema@,
                ) by {
                    if i < before.len() {
                        assert(clause_views(out@)[i] == clause_views(before)[i]);
                    }
                }
            }
            k = k + 1;
        }
        assert(attrs@.take(k as int) =~= attrs@);
    }

    fn push_comparison(
        &self,
        i: usize,
        cmp: ValueComparator,
        j: usize,
        schema: &Schema,
        out: &mut Vec<Clause>,
    )
        requires
            well_typed(self@, schema@),
            i < self@.env.len(),
            j < self@.env.len(),
            all_wf(clause_views(old(out)@), schema@),
        ensures
            clause_views(final(out)@) == clause_views(old(out)@).push(
                comparison_ext(self@, self@.env[i as int].0, cmp, self@.env[j as int].0),
            ),
            all_wf(clause_views(final(out)@), schema@),
    {
        let u = &self.types_[i].0;
        let w = &self.types_[j].0;
        assert(self@.env[i as int].0 == u@);
        assert(self@.env[j as int].0 == w@);
        assert(has_key(self@.env, u@));
        assert(has_key(self@.env, w@));
        let c = self.extend_with_comparison(u, cmp, w);
        assert(well_typed(c@, schema@));
        assert(c@ == comparison_ext(self@, u@, cmp, w@));
        let ghost before = out@;
        out.push(c);
        proof {
            lemma_views_push(before, c);
            assert forall|k: int| 0 <= k < clause_views(out@).len() implies well_typed(
                #[trigger] clause_views(out@)[k],
                schema@,
            ) by {
                if k < before.len() {
                    assert(clause_views(out@)[k] == clause_views(before)[k]);
                }
            }
        }
    }

    /// The comparisons of each two variables that may share a type.
    fn push_comparisons(&self, schema: &Schema, out: &mut Vec<Clause>)
        requires
            well_typed(self@, schema@),
            all_wf(clause_views(old(out)@), schema@),
        ensures
            clause_views(final(out)@) == clause_views(old(out)@) + all_comparisons(
                self@,
                self@.env.len() as int,
            ),
            all_wf(clause_views(final(out)@), schema@),
    {
        let ghost c = self@;
        let ghost start = clause_views(out@);
        let n = self.types_.len();
        let mut i: usize = 0;
        assert(start + Seq::<ClauseModel>::empty() =~= start);
        while i < n
            invariant
                i <= n,
                n == c.env.len(),
                c == self@,
                well_typed(self@, schema@),
                clause_views(out@) == start + all_comparisons(c, i as int),
                all_wf(clause_views(out@), schema@),
            decreases n - i,
        {
            let ghost row_start = clause_views(out@);
            let mut j: usize = i + 1;
            assert(row_start + Seq::<ClauseModel>::empty() =~= row_start);
            while j < n
                invariant
                    i < n,
                    i + 1 <= j <= n,
                    n == c.env.len(),
                    c == self@,
                    well_typed(self@, schema@),
                    clause_views(out@) == row_start + row_comparisons(c, i as int, j as int),
                    all_wf(clause_views(out@), schema@),
                decreases n - j,
            {
                let ghost before = clause_views(out@);
                assert(c.env[i as int].1 == self.types_@[i as int].1@);
                assert(c.env[j as int].1 == self.types_@[j as int].1@);
                if shares_a_type(&self.types_[i].1, &self.types_[j].1) {
                    self.push_comparison(i, ValueComparator::Eq, j, schema, out);
                    self.push_comparison(i, ValueComparator::Neq, j, schema, out);
                    self.push_comparison(i, ValueComparator::Lte, j, schema, out);
                    self.push_comparison(i, ValueComparator::Gte, j, schema, out);
                    assert(clause_views(out@) =~= before + pair_comparisons(c, i as int, j as int));
                } else {
                    assert(before + pair_comparisons(c, i as int, j as int) =~= before);
                }
                assert(row_start + row_comparisons(c, i as int, j + 1) =~= row_start + row_comparisons(
                    c,
                    i as int,
                    j as int,
                ) + pair_comparisons(c, i as int, j as int));
                j = j + 1;
            }
            assert(start + all_comparisons(c, i + 1) =~= start + all_comparisons(c, i as int)
                + row_comparisons(c, i as int, n as int));
            i = i + 1;
        }
    }
}

/// Whether two sets of types share a member.
fn shares_a_type(a: &TypeSet, b: &TypeSet) -> (r: bool)
    ensures
        r == intersects(a@, b@),
{
    let mut i: usize = 0;
    while i < a.len()
        invariant
            i <= a@.len(),
            forall|k: int| 0 <= k < i ==> !b@.contains(#[trigger] a@[k]),
        decreases a@.len() - i,
    {
        if b.contains(a.get(i).label()) {
            assert(a@.contains(a@[i as int]));
            return true;
        }
        i = i + 1;
    }
    assert forall|x: Seq<char>| #[trigger] a@.contains(x) implies !b@.contains(x) by {
        let k = choose|k: int| 0 <= k < a@.len() && a@[k] == x;
    }
    false
}

/// How a pattern writes a variable.
pub open spec fn var_text(v: Seq<char>) -> Seq<char> {
    "$"@ + v
}

/// How a pattern writes a literal. Roles in `links` are written without their
/// scope; types elsewhere by their full label.
pub open spec fn literal_text(l: LiteralModel) -> Seq<char> {
    match l {
        LiteralModel::Has { owner, type_, attribute } => var_text(owner) + " has "@ + type_ + " "@
            + var_text(attribute),
        LiteralModel::HasValue { owner, type_, value } => var_text(owner) + " has "@ + type_ + " "@
            + value,
        LiteralModel::Links { relation, role, player } => var_text(relation) + " links ("@
            + after_last_colon(role) + ": "@ + var_text(player) + ")"@,
        LiteralModel::Isa { instance, type_ } => var_text(instance) + " isa "@ + type_,
        LiteralModel::CompareVariables { lhs, comparator, rhs } => var_text(lhs) + " "@
            + comparator_text(comparator) + " "@ + var_text(rhs),
        LiteralModel::CompareConstant { lhs, comparator, rhs } => var_text(lhs) + " "@
            + comparator_text(comparator) + " "@ + rhs,
    }
}

pub open spec fn literal_texts(ls: Seq<LiteralModel>) -> Seq<Seq<char>> {
    ls.map_values(|l: LiteralModel| literal_text(l))
}

/// How a pattern writes a clause: its literals in order, separated by `;` and a
/// line break.
pub open spec fn clause_text(c: ClauseModel) -> Seq<char> {
    joined(literal_texts(c.literals), ";\n"@)
}

/// A clause's text indented by `depth` levels, one literal to a line, ending in a
/// line break.
pub open spec fn indented_clause_text(c: ClauseModel, depth: nat) -> Seq<char> {
    indent_text(depth) + joined(literal_texts(c.literals), ";\n"@ + indent_text(depth)) + "\n"@
}

impl ClauseVariable {
    fn to_typeql(&self) -> (r: String)
        ensures
            r@ == var_text(self@),
    {
        let mut r = String::new();
        r.append("$");
        r.append(self.name());
        r
    }
}

impl ClauseLiteral {
    pub fn to_typeql(&self) -> (r: String)
        ensures
            r@ == literal_text(self@),
    {
        match self {
            ClauseLiteral::Has { owner, type_, attribute } => {
                let mut r = owner.to_typeql();
                r.append(" has ");
                r.append(type_.label());
                r.append(" ");
                let a = attribute.to_typeql();
                r.append(a.as_str());
                r
            },
            ClauseLiteral::HasValue { owner, type_, value } => {
                let mut r = owner.to_typeql();
                r.append(" has ");
                r.append(type_.label());
                r.append(" ");
                r.append(value.literal.as_str());
                r
            },
            ClauseLiteral::Links { relation, role, player } => {
                let mut r = relation.to_typeql();
                r.append(" links (");
                let unscoped_role = unscoped(role.label());
                r.append(unscoped_role.as_str());
                r.append(": ");
                let p = player.to_typeql();
                r.append(p.as_str());
                r.append(")");
                r
            },
            ClauseLiteral::Isa { instance, type_ } => {
                let mut r = instance.to_typeql();
                r.append(" isa ");
                r.append(type_.label());
                r
            },
            ClauseLiteral::CompareVariables { lhs, comparator, rhs } => {
                let mut r = lhs.to_typeql();
                r.append(" ");
                let c = comparator_token(*comparator);
                r.append(c.as_str());
                r.append(" ");
                let b = rhs.to_typeql();
                r.append(b.as_str());
                r
            },
            ClauseLiteral::CompareConstant { lhs, comparator, rhs } => {
                let mut r = lhs.to_typeql();
                r.append(" ");
                let c = comparator_token(*comparator);
                r.append(c.as_str());
                r.append(" ");
                r.append(rhs.literal.as_str());
                r
            },
        }
    }
}

impl Clause {
    fn literal_texts(&self) -> (r: Vec<String>)
        ensures
            views_of_strings(r@) == literal_texts(self@.literals),
    {
        let mut parts: Vec<String> = Vec::new();
        let mut i: usize = 0;
        while i < self.conjunction.len()
            invariant
                i <= self.conjunction.len(),
                views_of_strings(parts@) == literal_texts(self@.literals.take(i as int)),
            decreases self.conjunction.len() - i,
        {
            let t = self.conjunction[i].to_typeql();
            let ghost before = parts@;
            parts.push(t);
            assert(views_of_strings(parts@) =~= views_of_strings(before).push(t@));
            assert(literal_texts(self@.literals.take(i + 1)) =~= literal_texts(
                self@.literals.take(i as int),
            ).push(literal_text(self@.literals[i as int])));
            i = i + 1;
        }
        assert(self@.literals.take(i as int) =~= self@.literals);
        parts
    }

    /// The clause as a pattern.
    pub fn to_typeql(&self) -> (r: String)
        ensures
            r@ == clause_text(self@),
    {
        let parts = self.literal_texts();
        join_with(&parts, ";\n")
    }

    /// The clause as a pattern, indented by `depth` levels, one literal to a line.
    pub fn fmt_with_indent(&self, depth: usize) -> (r: String)
        ensures
            r@ == indented_clause_text(self@, depth as nat),
    {
        let pad = indent(depth);
        let mut sep = String::new();
        sep.append(";\n");
        sep.append(pad.as_str());
        let parts = self.literal_texts();
        let body = join_with(&parts, sep.as_str());
        let mut r = pad;
        r.append(body.as_str());
        r.append("\n");
        r
    }

    /// The clause `$instance_0 isa type_`, where `instance_0` may have `type_`
    /// and its subtypes.
    pub fn new_from_isa(type_: SchemaType, schema: &Schema) -> (r: Clause)
        requires
            schema.wf(),
        ensures
            r@ == isa_ext(empty_clause(), schema@, INSTANCE_VAR_NAME@, type_@),
            clause_wf(r@),
            well_typed(r@, schema@),
    {
        let c = Clause::new_empty();
        assert(c@ == empty_clause());
        assert(well_typed(c@, schema@));
        c.extend_with_isa(&ClauseVariable::instance(), &type_, schema)
    }
}

/// The clause without literals or variables.
pub open spec fn empty_clause() -> ClauseModel {
    ClauseModel { literals: Seq::empty(), env: Seq::empty() }
}

/// Starting from `isa T` and rendering gives `$instance_0 isa T`.
pub proof fn lemma_initial_clause_text(s: SchemaModel, t: Seq<char>)
    ensures
        clause_text(isa_ext(empty_clause(), s, INSTANCE_VAR_NAME@, t)) == "$"@ + INSTANCE_VAR_NAME@
            + " isa "@ + t,
{
    let c = isa_ext(empty_clause(), s, INSTANCE_VAR_NAME@, t);
    assert(c.literals =~= seq![LiteralModel::Isa { instance: INSTANCE_VAR_NAME@, type_: t }]);
    assert(literal_texts(c.literals) =~= seq![literal_text(c.literals[0])]);
}

impl Clause {
    /// The clause with `Has(owner, attr_type, x)` added for a fresh attribute
    /// variable `x`, which may have only `attr_type`.
    pub fn extend_with_has(&self, owner: &ClauseVariable, attr_type: &SchemaType, schema: &Schema) -> (r:
        Clause)
        requires
            well_typed(self@, schema@),
            schema.wf(),
            has_key(self@.env, owner@),
            may_have_any(self@.env, owner@, lookup(schema@.owners, attr_type@)),
        ensures
            r@ == has_ext(self@, schema@, owner@, attr_type@),
            clause_wf(r@),
            well_typed(r@, schema@),
    {
        let attribute = self.fresh_variable(attr_type, None);
        let owner_types = types_of(&schema.owners, attr_type.label());
        let attribute_types = TypeSet::singleton(attr_type.clone());
        let ghost env1 = env_narrow(self@.env, owner@, owner_types@);
        proof {
            let x = choose|x: Seq<char>| #[trigger]
                lookup(self@.env, owner@).contains(x) && owner_types@.contains(x);
            lemma_keep_only(lookup(self@.env, owner@), owner_types@);
            assert(keep_only(lookup(self@.env, owner@), owner_types@).contains(x));
            lemma_env_narrow(self@.env, owner@, owner_types@);
            lemma_env_narrow(env1, attribute@, attribute_types@);
        }
        let mut c = self.clone();
        c.conjunction.push(
            ClauseLiteral::Has {
                owner: owner.clone(),
                type_: attr_type.clone(),
                attribute: attribute.clone(),
            },
        );
        c.narrow(owner, &owner_types);
        c.narrow(&attribute, &attribute_types);
        proof {
            let lit = LiteralModel::Has { owner: owner@, type_: attr_type@, attribute: attribute@ };
            assert(c@.literals =~= self@.literals.push(lit));
            assert(literal_vars(lit)[0] == owner@);
            assert(literal_vars(lit)[1] == attribute@);
            lemma_push_literal_wf(self@, lit, c@.env);
            lemma_narrow_keeps_typed(self@.literals, self@.env, owner@, owner_types@, schema@);
            lemma_env_narrow(self@.env, owner@, owner_types@);
            lemma_narrow_keeps_typed(self@.literals, env1, attribute@, attribute_types@, schema@);
            lemma_env_narrow(env1, attribute@, attribute_types@);
            lemma_keep_only(lookup(self@.env, owner@), owner_types@);
            assert(lookup(c@.env, owner@) == keep_only(lookup(self@.env, owner@), owner_types@));
            assert(lookup(c@.env, attribute@) == attribute_types@);
            assert(literal_typed(lit, c@.env, schema@));
            assert forall|i: int| 0 <= i < c@.literals.len() implies literal_typed(
                #[trigger] c@.literals[i],
                c@.env,
                schema@,
            ) by {
                if i < self@.literals.len() {
                    assert(c@.literals[i] == self@.literals[i]);
                }
            }
        }
        c
    }

    /// The clause with `var1 comparator var2` added.
    pub fn extend_with_comparison(
        &self,
        var1: &ClauseVariable,
        comparator: ValueComparator,
        var2: &ClauseVariable,
    ) -> (r: Clause)
        requires
            clause_wf(self@),
            has_key(self@.env, var1@),
            has_key(self@.env, var2@),
        ensures
            r@.literals == self@.literals.push(
                LiteralModel::CompareVariables { lhs: var1@, comparator, rhs: var2@ },
            ),
            r@.env == self@.env,
            clause_wf(r@),
            forall|sch: SchemaModel| #[trigger] well_typed(self@, sch) ==> well_typed(r@, sch),
    {
        let mut c = self.clone();
        c.conjunction.push(
            ClauseLiteral::CompareVariables { lhs: var1.clone(), comparator, rhs: var2.clone() },
        );
        proof {
            let lit = LiteralModel::CompareVariables { lhs: var1@, comparator, rhs: var2@ };
            assert(c@.literals =~= self@.literals.push(lit));
            assert(literal_vars(lit)[0] == var1@);
            assert(literal_vars(lit)[1] == var2@);
            lemma_push_literal_wf(self@, lit, c@.env);
            assert forall|sch: SchemaModel| #[trigger] well_typed(self@, sch) implies well_typed(
                c@,
                sch,
            ) by {
                assert forall|i: int| 0 <= i < c@.literals.len() implies literal_typed(
                    #[trigger] c@.literals[i],
                    c@.env,
                    sch,
                ) by {
                    if i < self@.literals.len() {
                        assert(c@.literals[i] == self@.literals[i]);
                    }
                }
            }
        }
        c
    }

    /// The clause with `attr_var == value` added.
    pub fn extend_with_eq(&self, attr_var: &ClauseVariable, value: &AttributeValue) -> (r: Clause)
        requires
            clause_wf(self@),
            has_key(self@.env, attr_var@),
        ensures
            r@.literals == self@.literals.push(
                LiteralModel::CompareConstant {
                    lhs: attr_var@,
                    comparator: ValueComparator::Eq,
                    rhs: value@,
                },
            ),
            r@.env == self@.env,
            clause_wf(r@),
            forall|sch: SchemaModel| #[trigger] well_typed(self@, sch) ==> well_typed(r@, sch),
    {
        let mut c = self.clone();
        c.conjunction.push(
            ClauseLiteral::CompareConstant {
                lhs: attr_var.clone(),
                comparator: ValueComparator::Eq,
                rhs: value.clone(),
            },
        );
        proof {
            let lit = LiteralModel::CompareConstant {
                lhs: attr_var@,
                comparator: ValueComparator::Eq,
                rhs: value@,
            };
            assert(c@.literals =~= self@.literals.push(lit));
            assert(literal_vars(lit)[0] == attr_var@);
            lemma_push_literal_wf(self@, lit, c@.env);
            assert forall|sch: SchemaModel| #[trigger] well_typed(self@, sch) implies well_typed(
                c@,
                sch,
            ) by {
                assert forall|i: int| 0 <= i < c@.literals.len() implies literal_typed(
                    #[trigger] c@.literals[i],
                    c@.env,
                    sch,
                ) by {
                    if i < self@.literals.len() {
                        assert(c@.literals[i] == self@.literals[i]);
                    }
                }
            }
        }
        c
    }
}

/// `d` is `c` with one more literal at the end.
pub open spec fn adds_one_literal(c: ClauseModel, d: ClauseModel) -> bool {
    d.literals.len() == c.literals.len() + 1 && d.literals.take(c.literals.len() as int) == c.literals
}

pub open spec fn all_add_one_literal(c: ClauseModel, ds: Seq<ClauseModel>) -> bool {
    forall|i: int| 0 <= i < ds.len() ==> adds_one_literal(c, #[trigger] ds[i])
}

proof fn lemma_push_adds_one(c: ClauseModel, l: LiteralModel)
    ensures
        c.literals.push(l).take(c.literals.len() as int) == c.literals,
{
    assert(c.literals.push(l).take(c.literals.len() as int) =~= c.literals);
}

proof fn lemma_all_add_concat(c: ClauseModel, a: Seq<ClauseModel>, b: Seq<ClauseModel>)
    requires
        all_add_one_literal(c, a),
        all_add_one_literal(c, b),
    ensures
        all_add_one_literal(c, a + b),
{
    assert forall|i: int| 0 <= i < (a + b).len() implies adds_one_literal(c, #[trigger] (a + b)[i]) by {
        if i < a.len() {
            assert((a + b)[i] == a[i]);
        } else {
            assert((a + b)[i] == b[i - a.len()]);
        }
    }
}

proof fn lemma_all_add_push(c: ClauseModel, a: Seq<ClauseModel>, d: ClauseModel)
    requires
        all_add_one_literal(c, a),
        adds_one_literal(c, d),
    ensures
        all_add_one_literal(c, a.push(d)),
{
    assert forall|i: int| 0 <= i < a.push(d).len() implies adds_one_literal(c, #[trigger] a.push(d)[i]) by {
        if i < a.len() {
            assert(a.push(d)[i] == a[i]);
        }
    }
}

proof fn lemma_isa_list_adds(c: ClauseModel, s: SchemaModel, v: Seq<char>, ts: Seq<Seq<char>>)
    ensures
        all_add_one_literal(c, isa_list(c, s, v, ts)),
    decreases ts.len(),
{
    if ts.len() > 0 {
        lemma_isa_list_adds(c, s, v, ts.drop_last());
        lemma_push_adds_one(c, LiteralModel::Isa { instance: v, type_: ts.last() });
        lemma_all_add_push(c, isa_list(c, s, v, ts.drop_last()), isa_ext(c, s, v, ts.last()));
    }
}

proof fn lemma_values_adds(c: ClauseModel, s: SchemaModel, v: Seq<char>, ts: Seq<Seq<char>>)
    ensures
        all_add_one_literal(c, types_values(c, s, v, ts)),
    decreases ts.len(),
{
    if ts.len() > 0 {
        lemma_values_adds(c, s, v, ts.drop_last());
        lemma_attrs_adds(c, s, v, lookup(s.owns, ts.last()));
        lemma_all_add_concat(
            c,
            types_values(c, s, v, ts.drop_last()),
            attrs_values(c, s, v, lookup(s.owns, ts.last())),
        );
    }
}

proof fn lemma_attrs_adds(c: ClauseModel, s: SchemaModel, v: Seq<char>, attrs: Seq<Seq<char>>)
    ensures
        all_add_one_literal(c, attrs_values(c, s, v, attrs)),
    decreases attrs.len(),
{
    if attrs.len() > 0 {
        let a = attrs.last();
        lemma_attrs_adds(c, s, v, attrs.drop_last());
        lemma_value_list_adds(c, s, v, a, lookup(s.categorical, a));
        lemma_all_add_concat(
            c,
            attrs_values(c, s, v, attrs.drop_last()),
            value_list(c, s, v, a, lookup(s.categorical, a)),
        );
    }
}

proof fn lemma_value_list_adds(
    c: ClauseModel,
    s: SchemaModel,
    v: Seq<char>,
    a: Seq<char>,
    xs: Seq<Seq<char>>,
)
    ensures
        all_add_one_literal(c, value_list(c, s, v, a, xs)),
    decreases xs.len(),
{
    if xs.len() > 0 {
        lemma_value_list_adds(c, s, v, a, xs.drop_last());
        lemma_push_adds_one(c, LiteralModel::HasValue { owner: v, type_: a, value: xs.last() });
        lemma_all_add_push(
            c,
            value_list(c, s, v, a, xs.drop_last()),
            has_value_ext(c, s, v, a, xs.last()),
        );
    }
}

proof fn lemma_related_adds(c: ClauseModel, s: SchemaModel, v: Seq<char>, ts: Seq<Seq<char>>)
    ensures
        all_add_one_literal(c, types_related(c, s, v, ts)),
    decreases ts.len(),
{
    if ts.len() > 0 {
        lemma_related_adds(c, s, v, ts.drop_last());
        lemma_related_list_adds(c, s, v, lookup(s.relates, ts.last()));
        lemma_all_add_concat(
            c,
            types_related(c, s, v, ts.drop_last()),
            related_list(c, s, v, lookup(s.relates, ts.last())),
        );
    }
}

proof fn lemma_related_list_adds(c: ClauseModel, s: SchemaModel, v: Seq<char>, roles: Seq<Seq<char>>)
    ensures
        all_add_one_literal(c, related_list(c, s, v, roles)),
    decreases roles.len(),
{
    if roles.len() > 0 {
        let r = roles.last();
        lemma_related_list_adds(c, s, v, roles.drop_last());
        let p = padded(c.env, base_name(r, c.literals.len(), None));
        lemma_push_adds_one(c, LiteralModel::Links { relation: v, role: r, player: p });
        lemma_all_add_push(c, related_list(c, s, v, roles.drop_last()), related_ext(c, s, v, r));
    }
}

proof fn lemma_played_adds(c: ClauseModel, s: SchemaModel, v: Seq<char>, ts: Seq<Seq<char>>)
    ensures
        all_add_one_literal(c, types_played(c, s, v, ts)),
    decreases ts.len(),
{
    if ts.len() > 0 {
        lemma_played_adds(c, s, v, ts.drop_last());
        lemma_played_list_adds(c, s, v, lookup(s.plays, ts.last()));
        lemma_all_add_concat(
            c,
            types_played(c, s, v, ts.drop_last()),
            played_list(c, s, v, lookup(s.plays, ts.last())),
        );
    }
}

proof fn lemma_played_list_adds(c: ClauseModel, s: SchemaModel, v: Seq<char>, roles: Seq<Seq<char>>)
    ensures
        all_add_one_literal(c, played_list(c, s, v, roles)),
    decreases roles.len(),
{
    if roles.len() > 0 {
        let r = roles.last();
        lemma_played_list_adds(c, s, v, roles.drop_last());
        let q = padded(c.env, base_name(r, c.literals.len(), Some("rel"@)));
        lemma_push_adds_one(c, LiteralModel::Links { relation: q, role: r, player: v });
        lemma_all_add_push(c, played_list(c, s, v, roles.drop_last()), played_ext(c, s, v, r));
    }
}

proof fn lemma_has_list_adds(c: ClauseModel, s: SchemaModel, v: Seq<char>, attrs: Seq<Seq<char>>)
    ensures
        all_add_one_literal(c, has_list(c, s, v, attrs)),
    decreases attrs.len(),
{
    if attrs.len() > 0 {
        let a = attrs.last();
        lemma_has_list_adds(c, s, v, attrs.drop_last());
        let x = padded(c.env, base_name(a, c.literals.len(), None));
        lemma_push_adds_one(c, LiteralModel::Has { owner: v, type_: a, attribute: x });
        lemma_all_add_push(c, has_list(c, s, v, attrs.drop_last()), has_ext(c, s, v, a));
    }
}

proof fn lemma_types_has_adds(c: ClauseModel, s: SchemaModel, v: Seq<char>, ts: Seq<Seq<char>>)
    ensures
        all_add_one_literal(c, types_has(c, s, v, ts)),
    decreases ts.len(),
{
    if ts.len() > 0 {
        lemma_types_has_adds(c, s, v, ts.drop_last());
        lemma_has_list_adds(c, s, v, lookup(s.owns, ts.last()));
        lemma_all_add_concat(
            c,
            types_has(c, s, v, ts.drop_last()),
            has_list(c, s, v, lookup(s.owns, ts.last())),
        );
    }
}

proof fn lemma_env_refinements_add(c: ClauseModel, s: SchemaModel, o: RefinementOptions, env: EnvModel)
    ensures
        all_add_one_literal(c, env_refinements(c, s, o, env)),
    decreases env.len(),
{
    if env.len() > 0 {
        let v = env.last().0;
        let ts = env.last().1;
        lemma_env_refinements_add(c, s, o, env.drop_last());
        lemma_isa_list_adds(c, s, v, ts);
        lemma_types_has_adds(c, s, v, ts);
        lemma_values_adds(c, s, v, ts);
        lemma_related_adds(c, s, v, ts);
        lemma_played_adds(c, s, v, ts);
        let isa = if ts.len() > 1 {
            isa_list(c, s, v, ts)
        } else {
            Seq::empty()
        };
        let has = if o.attribute_ownership {
            types_has(c, s, v, ts)
        } else {
            Seq::empty()
        };
        lemma_all_add_concat(c, isa, has);
        lemma_all_add_concat(c, isa + has, types_values(c, s, v, ts));
        lemma_all_add_concat(c, isa + has + types_values(c, s, v, ts), types_related(c, s, v, ts));
        lemma_all_add_concat(
            c,
            isa + has + types_values(c, s, v, ts) + types_related(c, s, v, ts),
            types_played(c, s, v, ts),
        );
        lemma_all_add_concat(
            c,
            env_refinements(c, s, o, env.drop_last()),
            var_refinements(c, s, o, v, ts),
        );
    }
}

proof fn lemma_row_comparisons_add(c: ClauseModel, i: int, j: int)
    requires
        0 <= i < c.env.len(),
        j <= c.env.len(),
    ensures
        all_add_one_literal(c, row_comparisons(c, i, j)),
    decreases j - i,
{
    if j > i + 1 {
        lemma_row_comparisons_add(c, i, j - 1);
        let p = pair_comparisons(c, i, j - 1);
        assert forall|k: int| 0 <= k < p.len() implies adds_one_literal(c, #[trigger] p[k]) by {
            let u = c.env[i].0;
            let w = c.env[j - 1].0;
            lemma_push_adds_one(c, LiteralModel::CompareVariables { lhs: u, comparator: ValueComparator::Eq, rhs: w });
            lemma_push_adds_one(c, LiteralModel::CompareVariables { lhs: u, comparator: ValueComparator::Neq, rhs: w });
            lemma_push_adds_one(c, LiteralModel::CompareVariables { lhs: u, comparator: ValueComparator::Lte, rhs: w });
            lemma_push_adds_one(c, LiteralModel::CompareVariables { lhs: u, comparator: ValueComparator::Gte, rhs: w });
        }
        lemma_all_add_concat(c, row_comparisons(c, i, j - 1), p);
    }
}

proof fn lemma_all_comparisons_add(c: ClauseModel, n: int)
    requires
        n <= c.env.len(),
    ensures
        all_add_one_literal(c, all_comparisons(c, n)),
    decreases n,
{
    if n > 0 {
        lemma_all_comparisons_add(c, n - 1);
        lemma_row_comparisons_add(c, n - 1, c.env.len() as int);
        lemma_all_add_concat(c, all_comparisons(c, n - 1), row_comparisons(c, n - 1, c.env.len() as int));
    }
}

/// Refinement only specialises: each refinement of a clause is that clause with
/// one more literal, so each conjunctive pattern it renders to asks for all that
/// the clause asks for, and more.
pub proof fn lemma_refinement_adds_one_literal(c: ClauseModel, s: SchemaModel, o: RefinementOptions)
    ensures
        forall|i: int|
            0 <= i < refinements_with(c, s, o).len() ==> adds_one_literal(
                c,
                #[trigger] refinements_with(c, s, o)[i],
            ),
{
    lemma_env_refinements_add(c, s, o, c.env);
    lemma_all_comparisons_add(c, c.env.len() as int);
    let comparisons = if o.variable_comparisons {
        all_comparisons(c, c.env.len() as int)
    } else {
        Seq::empty()
    };
    lemma_all_add_concat(c, env_refinements(c, s, o, c.env), comparisons);
}

/// Refinement is deterministic: for equal clauses, equal schemas and equal
/// options it gives the same refinements, in the same order.
pub proof fn lemma_refinement_deterministic(
    c1: ClauseModel,
    c2: ClauseModel,
    s1: SchemaModel,
    s2: SchemaModel,
    o1: RefinementOptions,
    o2: RefinementOptions,
)
    requires
        c1 == c2,
        s1 == s2,
        o1 == o2,
    ensures
        refinements_with(c1, s1, o1) == refinements_with(c2, s2, o2),
{
}

/// In a well-typed clause over a consistent schema, each type that the relation
/// variable of a `Links` literal may have relates the literal's role.
pub proof fn lemma_links_role_related(c: ClauseModel, s: SchemaModel, i: int, t: Seq<char>)
    requires
        well_typed(c, s),
        consistent(s),
        0 <= i < c.literals.len(),
        c.literals[i] is Links,
        lookup(c.env, c.literals[i]->Links_relation).contains(t),
    ensures
        lookup(s.relates, t).contains(c.literals[i]->Links_role),
{
    assert(literal_typed(c.literals[i], c.env, s));
}

/// `Isa(v, t)` leaves `v` only types among `t` and its subtypes.
pub proof fn lemma_isa_narrows(c: ClauseModel, s: SchemaModel, v: Seq<char>, t: Seq<char>)
    requires
        env_wf(c.env),
        strictly_sorted(lookup(s.subtypes, t)),
    ensures
        forall|x: Seq<char>| #[trigger]
            lookup(isa_ext(c, s, v, t).env, v).contains(x) ==> x == t || lookup(
                s.subtypes,
                t,
            ).contains(x),
{
    let types = isa_types(s, t);
    lemma_insert_label_contains(lookup(s.subtypes, t), t);
    let n = env_narrow(c.env, v, types);
    let p = count_below(env_names(c.env), v) as int;
    if has_key(c.env, v) {
        let i = choose|i: int| 0 <= i < c.env.len() && (#[trigger] c.env[i]).0 == v;
        lemma_env_lookup(c.env, i);
        lemma_keep_only(c.env[i].1, types);
        assert(n[p] == (v, keep_only(c.env[i].1, types)));
        assert(env_names(n) =~= env_names(c.env));
        lemma_env_lookup(n, p);
    } else {
        lemma_env_has_key(c.env, v);
        lemma_count_below_bound(env_names(c.env), v);
        assert forall|j: int| 0 <= j < p implies lex_lt(#[trigger] env_names(c.env)[j], v) by {
            lemma_count_below_prefix(env_names(c.env), v, j);
        }
        if p < c.env.len() {
            lemma_count_below_next(env_names(c.env), v);
            lemma_lex_total(env_names(c.env)[p], v);
        }
        lemma_sorted_insert(env_names(c.env), v, p);
        assert(env_names(n) =~= env_names(c.env).insert(p, v));
        lemma_env_lookup(n, p);
    }
}

} // verus!

