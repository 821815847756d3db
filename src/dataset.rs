//! Instances of the target type, labelled examples, and the sets of instances
//! that the learners count and split by.
use vstd::prelude::*;

verus! {

/// An instance of the database, known by its instance identifier's bytes.
#[derive(Debug)]
pub struct Instance {
    iid: Vec<u8>,
}

impl View for Instance {
    type V = Seq<u8>;

    closed spec fn view(&self) -> Seq<u8> {
        self.iid@
    }
}

impl Clone for Instance {
    fn clone(&self) -> (r: Self)
        ensures
            r@ == self@,
    {
        Instance { iid: self.iid.clone() }
    }
}

impl Instance {
    pub fn new(iid: Vec<u8>) -> (r: Instance)
        ensures
            r@ == iid@,
    {
        Instance { iid }
    }

    pub fn iid(&self) -> (r: &Vec<u8>)
        ensures
            r@ == self@,
    {
        &self.iid
    }

    /// Whether two instances are the same.
    pub fn same(&self, other: &Instance) -> (r: bool)
        ensures
            r == (self@ == other@),
    {
        if self.iid.len() != other.iid.len() {
            return false;
        }
        let mut i: usize = 0;
        while i < self.iid.len()
            invariant
                i <= self.iid.len(),
                self.iid.len() == other.iid.len(),
                forall|j: int| 0 <= j < i ==> self@[j] == other@[j],
            decreases self.iid.len() - i,
        {
            if self.iid[i] != other.iid[i] {
                return false;
            }
            i = i + 1;
        }
        assert(self@ =~= other@);
        true
    }
}

pub open spec fn instance_views(s: Seq<Instance>) -> Seq<Seq<u8>> {
    s.map_values(|x: Instance| x@)
}

/// Whether `set` holds `x`.
pub fn contains_instance(set: &Vec<Instance>, x: &Instance) -> (r: bool)
    ensures
        r == instance_views(set@).contains(x@),
{
    let mut i: usize = 0;
    while i < set.len()
        invariant
            i <= set.len(),
            forall|j: int| 0 <= j < i ==> set@[j]@ != x@,
        decreases set.len() - i,
    {
        if set[i].same(x) {
            assert(instance_views(set@)[i as int] == x@);
            return true;
        }
        i = i + 1;
    }
    assert forall|j: int| 0 <= j < instance_views(set@).len() implies instance_views(set@)[j] != x@ by {
        assert(instance_views(set@)[j] == set@[j]@);
    }
    false
}

/// The members of `s` that `covered` holds (`keep`), or those it does not, in
/// their order.
pub open spec fn select(s: Seq<Seq<u8>>, covered: Seq<Seq<u8>>, keep: bool) -> Seq<Seq<u8>>
    decreases s.len(),
{
    if s.len() == 0 {
        s
    } else if covered.contains(s.last()) == keep {
        select(s.drop_last(), covered, keep).push(s.last())
    } else {
        select(s.drop_last(), covered, keep)
    }
}

/// The members of `s` that `covered` holds (`keep`), or those it does not.
pub fn select_instances(s: &Vec<Instance>, covered: &Vec<Instance>, keep: bool) -> (r: Vec<Instance>)
    ensures
        instance_views(r@) == select(instance_views(s@), instance_views(covered@), keep),
{
    let ghost sv = instance_views(s@);
    let ghost cv = instance_views(covered@);
    let mut r: Vec<Instance> = Vec::new();
    let mut i: usize = 0;
    assert(instance_views(r@) =~= Seq::<Seq<u8>>::empty());
    while i < s.len()
        invariant
            i <= s.len(),
            sv == instance_views(s@),
            cv == instance_views(covered@),
            instance_views(r@) == select(sv.take(i as int), cv, keep),
        decreases s.len() - i,
    {
        assert(sv.take(i + 1).drop_last() =~= sv.take(i as int));
        assert(sv.take(i + 1).last() == s@[i as int]@);
        if contains_instance(covered, &s[i]) == keep {
            let x = s[i].clone();
            let ghost before = r@;
            r.push(x);
            assert(instance_views(r@) =~= instance_views(before).push(x@));
        }
        i = i + 1;
    }
    assert(sv.take(i as int) =~= sv);
    r
}

/// Selecting never gives more than there was; where `covered` holds a member of
/// `s`, removing what it holds gives strictly fewer.
pub proof fn lemma_select_len(s: Seq<Seq<u8>>, covered: Seq<Seq<u8>>, keep: bool)
    ensures
        select(s, covered, keep).len() <= s.len(),
        select(s, covered, false).len() + select(s, covered, true).len() == s.len(),
        (exists|i: int| 0 <= i < s.len() && covered.contains(#[trigger] s[i])) ==> select(
            s,
            covered,
            false,
        ).len() < s.len(),
    decreases s.len(),
{
    if s.len() > 0 {
        let d = s.drop_last();
        lemma_select_len(d, covered, keep);
        lemma_select_len(d, covered, !keep);
        if exists|i: int| 0 <= i < s.len() && covered.contains(#[trigger] s[i]) {
            let i = choose|i: int| 0 <= i < s.len() && covered.contains(#[trigger] s[i]);
            if i < s.len() - 1 {
                assert(d[i] == s[i]);
            }
        }
    }
}

/// What `select` keeps: the members of `s` that `covered` holds (`keep`), or
/// those it does not.
pub proof fn lemma_select_contains(s: Seq<Seq<u8>>, covered: Seq<Seq<u8>>, keep: bool)
    ensures
        forall|x: Seq<u8>| #[trigger]
            select(s, covered, keep).contains(x) <==> (s.contains(x) && covered.contains(x) == keep),
    decreases s.len(),
{
    if s.len() > 0 {
        let d = s.drop_last();
        lemma_select_contains(d, covered, keep);
        let r = select(d, covered, keep);
        assert forall|x: Seq<u8>| #[trigger]
            select(s, covered, keep).contains(x) <==> (s.contains(x) && covered.contains(x) == keep) by {
            if s.contains(x) {
                let i = choose|i: int| 0 <= i < s.len() && s[i] == x;
                if i < s.len() - 1 {
                    assert(d[i] == x);
                }
            }
            if d.contains(x) {
                let i = choose|i: int| 0 <= i < d.len() && d[i] == x;
                assert(s[i] == x);
            }
            if covered.contains(s.last()) == keep {
                let t = r.push(s.last());
                if t.contains(x) {
                    let i = choose|i: int| 0 <= i < t.len() && t[i] == x;
                    if i < r.len() {
                        assert(r[i] == x);
                    }
                }
                if r.contains(x) {
                    let i = choose|i: int| 0 <= i < r.len() && r[i] == x;
                    assert(t[i] == x);
                }
                if x == s.last() {
                    assert(t[r.len() as int] == x);
                    assert(s[s.len() - 1] == x);
                }
            } else {
                if x == s.last() {
                    assert(s[s.len() - 1] == x);
                }
            }
        }
    }
}

/// How many members of `s` `covered` holds.
pub open spec fn count_covered(s: Seq<Seq<u8>>, covered: Seq<Seq<u8>>) -> nat {
    select(s, covered, true).len()
}

/// How many members of `s` `covered` holds.
pub fn count_instances_in(s: &Vec<Instance>, covered: &Vec<Instance>) -> (r: usize)
    ensures
        r == count_covered(instance_views(s@), instance_views(covered@)),
{
    let ghost sv = instance_views(s@);
    let ghost cv = instance_views(covered@);
    let mut n: usize = 0;
    let mut i: usize = 0;
    while i < s.len()
        invariant
            i <= s.len(),
            sv == instance_views(s@),
            cv == instance_views(covered@),
            n == select(sv.take(i as int), cv, true).len(),
        decreases s.len() - i,
    {
        assert(sv.take(i + 1).drop_last() =~= sv.take(i as int));
        assert(sv.take(i + 1).last() == s@[i as int]@);
        proof {
            lemma_select_len(sv.take(i as int), cv, true);
        }
        if contains_instance(covered, &s[i]) {
            n = n + 1;
        }
        i = i + 1;
    }
    assert(sv.take(i as int) =~= sv);
    n
}

/// An instance of the target type with its class: positive or negative.
#[derive(Debug)]
pub struct Example {
    pub instance: Instance,
    pub class: bool,
}

impl Clone for Example {
    fn clone(&self) -> (r: Self)
        ensures
            r.instance@ == self.instance@,
            r.class == self.class,
    {
        Example { instance: self.instance.clone(), class: self.class }
    }
}

/// Labelled examples, in order.
#[derive(Debug)]
pub struct Dataset {
    pub examples: Vec<Example>,
}

pub open spec fn example_views(s: Seq<Example>) -> Seq<(Seq<u8>, bool)> {
    s.map_values(|e: Example| (e.instance@, e.class))
}

impl View for Dataset {
    type V = Seq<(Seq<u8>, bool)>;

    open spec fn view(&self) -> Seq<(Seq<u8>, bool)> {
        example_views(self.examples@)
    }
}

/// How many examples of `d` are of class `class`.
pub open spec fn class_count(d: Seq<(Seq<u8>, bool)>, class: bool) -> nat
    decreases d.len(),
{
    if d.len() == 0 {
        0
    } else {
        class_count(d.drop_last(), class) + if d.last().1 == class {
            1nat
        } else {
            0nat
        }
    }
}

/// The examples of `d` whose instance `covered` holds (`keep`), or those whose
/// instance it does not, in their order.
pub open spec fn split_part(d: Seq<(Seq<u8>, bool)>, covered: Seq<Seq<u8>>, keep: bool) -> Seq<
    (Seq<u8>, bool),
>
    decreases d.len(),
{
    if d.len() == 0 {
        d
    } else if covered.contains(d.last().0) == keep {
        split_part(d.drop_last(), covered, keep).push(d.last())
    } else {
        split_part(d.drop_last(), covered, keep)
    }
}

pub proof fn lemma_class_count_le(d: Seq<(Seq<u8>, bool)>, class: bool)
    ensures
        class_count(d, class) <= d.len(),
        class_count(d, true) + class_count(d, false) == d.len(),
    decreases d.len(),
{
    if d.len() > 0 {
        lemma_class_count_le(d.drop_last(), class);
    }
}

pub proof fn lemma_split_len(d: Seq<(Seq<u8>, bool)>, covered: Seq<Seq<u8>>)
    ensures
        split_part(d, covered, true).len() + split_part(d, covered, false).len() == d.len(),
    decreases d.len(),
{
    if d.len() > 0 {
        lemma_split_len(d.drop_last(), covered);
    }
}

/// Class counts of a dataset.
#[derive(Clone, Copy, Debug, PartialEq, Eq, Structural)]
pub struct ClassCounts {
    pub positive: usize,
    pub negative: usize,
}

impl Dataset {
    pub fn len(&self) -> (r: usize)
        ensures
            r == self@.len(),
    {
        self.examples.len()
    }

    /// The number of positive and of negative examples.
    pub fn count_by_class(&self) -> (r: ClassCounts)
        ensures
            r.positive == class_count(self@, true),
            r.negative == class_count(self@, false),
    {
        let mut r = ClassCounts { positive: 0, negative: 0 };
        let mut i: usize = 0;
        while i < self.examples.len()
            invariant
                i <= self.examples.len(),
                r.positive == class_count(self@.take(i as int), true),
                r.negative == class_count(self@.take(i as int), false),
            decreases self.examples.len() - i,
        {
            assert(self@.take(i + 1).drop_last() =~= self@.take(i as int));
            assert(self@.take(i + 1).last() == self@[i as int]);
            proof {
                lemma_class_count_le(self@.take(i as int), true);
            }
            if self.examples[i].class {
                r.positive = r.positive + 1;
            } else {
                r.negative = r.negative + 1;
            }
            i = i + 1;
        }
        assert(self@.take(i as int) =~= self@);
        r
    }

    /// Whether all examples are of one class (or there are none): the datasets
    /// whose entropy is zero.
    pub fn is_homogeneous(&self) -> (r: bool)
        ensures
            r == (class_count(self@, true) == 0 || class_count(self@, false) == 0),
    {
        let c = self.count_by_class();
        c.positive == 0 || c.negative == 0
    }

    /// The majority class; ties go to the positive class. None for no examples.
    pub fn majority_class(&self) -> (r: Option<bool>)
        ensures
            r == if self@.len() == 0 {
                None
            } else {
                Some(class_count(self@, true) >= class_count(self@, false))
            },
    {
        if self.examples.len() == 0 {
            return None;
        }
        let c = self.count_by_class();
        Some(c.positive >= c.negative)
    }

    /// Splits the examples into those whose instance `covered` holds and the rest,
    /// each in the order of this dataset.
    pub fn split_on(&self, covered: &Vec<Instance>) -> (r: (Dataset, Dataset))
        ensures
            r.0@ == split_part(self@, instance_views(covered@), true),
            r.1@ == split_part(self@, instance_views(covered@), false),
            r.0@.len() + r.1@.len() == self@.len(),
    {
        let ghost cv = instance_views(covered@);
        let mut left: Vec<Example> = Vec::new();
        let mut right: Vec<Example> = Vec::new();
        let mut i: usize = 0;
        assert(example_views(left@) =~= Seq::<(Seq<u8>, bool)>::empty());
        assert(example_views(right@) =~= Seq::<(Seq<u8>, bool)>::empty());
        while i < self.examples.len()
            invariant
                i <= self.examples.len(),
                cv == instance_views(covered@),
                example_views(left@) == split_part(self@.take(i as int), cv, true),
                example_views(right@) == split_part(self@.take(i as int), cv, false),
            decreases self.examples.len() - i,
        {
            assert(self@.take(i + 1).drop_last() =~= self@.take(i as int));
            assert(self@.take(i + 1).last() == self@[i as int]);
            let e = self.examples[i].clone();
            if contains_instance(covered, &self.examples[i].instance) {
                let ghost before = left@;
                left.push(e);
                assert(example_views(left@) =~= example_views(before).push(self@[i as int]));
            } else {
                let ghost before = right@;
                right.push(e);
                assert(example_views(right@) =~= example_views(before).push(self@[i as int]));
            }
            i = i + 1;
        }
        assert(self@.take(i as int) =~= self@);
        proof {
            lemma_split_len(self@, cv);
        }
        (Dataset { examples: left }, Dataset { examples: right })
    }
}

} // verus!
