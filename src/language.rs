//! The schema of the database a learner works against: its types, the sets of
//! types that each edge relation (`owns`, `relates`, `plays`, `sub`) gives for a
//! type, in both directions, and the observed values of categorical attributes.
use crate::text::{
    count_below, keep_only, lemma_count_below, lemma_count_below_bound, lemma_keep_only,
    lemma_lex_irreflexive, lemma_lex_total, lemma_sorted_insert, lex_less, lex_lt, same_text,
    strictly_sorted,
};
use vstd::prelude::*;

verus! {

/// What a schema type is.
#[derive(Clone, Copy, Debug, PartialEq, Eq, Structural)]
pub enum TypeKind {
    Entity,
    Relation,
    Role,
    Attribute,
}

/// A type of the schema. It is known by its label: role labels are scoped, as
/// in `relation:role`.
#[derive(Debug)]
pub struct SchemaType {
    pub kind: TypeKind,
    pub label: String,
}

impl View for SchemaType {
    type V = Seq<char>;

    open spec fn view(&self) -> Seq<char> {
        self.label@
    }
}

impl Clone for SchemaType {
    fn clone(&self) -> (r: Self)
        ensures
            r@ == self@,
            r.kind == self.kind,
    {
        SchemaType { kind: self.kind, label: self.label.clone() }
    }
}

impl SchemaType {
    pub fn new(kind: TypeKind, label: String) -> (r: SchemaType)
        ensures
            r@ == label@,
            r.kind == kind,
    {
        SchemaType { kind, label }
    }

    pub fn label(&self) -> (r: &str)
        ensures
            r@ == self@,
    {
        self.label.as_str()
    }

    pub fn type_kind(&self) -> (r: TypeKind)
        ensures
            r == self.kind,
    {
        self.kind
    }
}

pub open spec fn labels_of(s: Seq<SchemaType>) -> Seq<Seq<char>> {
    s.map_values(|t: SchemaType| t@)
}

/// `s` with `x` added where it belongs, unless `s` holds it already.
pub open spec fn insert_label(s: Seq<Seq<char>>, x: Seq<char>) -> Seq<Seq<char>> {
    if s.contains(x) {
        s
    } else {
        s.insert(count_below(s, x) as int, x)
    }
}

pub proof fn lemma_insert_label_contains(s: Seq<Seq<char>>, x: Seq<char>)
    ensures
        forall|y: Seq<char>| #[trigger]
            insert_label(s, x).contains(y) <==> (s.contains(y) || y == x),
{
    if !s.contains(x) {
        let p = count_below(s, x) as int;
        lemma_count_below_bound(s, x);
        let t = s.insert(p, x);
        assert forall|y: Seq<char>| t.contains(y) <==> (s.contains(y) || y == x) by {
            if t.contains(y) {
                let i = choose|i: int| 0 <= i < t.len() && t[i] == y;
                if i < p {
                    assert(s[i] == y);
                } else if i > p {
                    assert(s[i - 1] == y);
                }
            }
            if s.contains(y) {
                let i = choose|i: int| 0 <= i < s.len() && s[i] == y;
                if i < p {
                    assert(t[i] == y);
                } else {
                    assert(t[i + 1] == y);
                }
            }
            if y == x {
                assert(t[p] == y);
            }
        }
    }
}

/// A set of schema types, kept in the order of their labels.
#[derive(Debug)]
pub struct TypeSet {
    items: Vec<SchemaType>,
}

impl View for TypeSet {
    type V = Seq<Seq<char>>;

    closed spec fn view(&self) -> Seq<Seq<char>> {
        labels_of(self.items@)
    }
}

impl Clone for TypeSet {
    fn clone(&self) -> (r: Self)
        ensures
            r@ == self@,
    {
        let mut items: Vec<SchemaType> = Vec::new();
        let mut i: usize = 0;
        while i < self.items.len()
            invariant
                i <= self.items.len(),
                labels_of(items@) =~= labels_of(self.items@.take(i as int)),
            decreases self.items.len() - i,
        {
            let t = self.items[i].clone();
            let ghost before = items@;
            items.push(t);
            assert(labels_of(items@) =~= labels_of(before).push(t@));
            assert(self.items@.take(i + 1) =~= self.items@.take(i as int).push(self.items@[i as int]));
            assert(labels_of(self.items@.take(i + 1)) =~= labels_of(self.items@.take(i as int)).push(
                self.items@[i as int]@,
            ));
            i = i + 1;
        }
        assert(self.items@.take(i as int) =~= self.items@);
        TypeSet { items }
    }
}

impl TypeSet {
    /// Sorted by label, without repetition.
    pub open spec fn wf(&self) -> bool {
        strictly_sorted(self@)
    }

    pub fn new() -> (r: TypeSet)
        ensures
            r@ == Seq::<Seq<char>>::empty(),
            r.wf(),
    {
        let r = TypeSet { items: Vec::new() };
        assert(r@ =~= Seq::<Seq<char>>::empty());
        r
    }

    pub fn singleton(t: SchemaType) -> (r: TypeSet)
        ensures
            r@ == seq![t@],
            r.wf(),
    {
        let mut items: Vec<SchemaType> = Vec::new();
        items.push(t);
        let r = TypeSet { items };
        assert(r@ =~= seq![t@]);
        r
    }

    pub fn len(&self) -> (r: usize)
        ensures
            r == self@.len(),
    {
        self.items.len()
    }

    pub fn is_empty(&self) -> (r: bool)
        ensures
            r == (self@.len() == 0),
    {
        self.items.len() == 0
    }

    pub fn get(&self, i: usize) -> (r: &SchemaType)
        requires
            i < self@.len(),
        ensures
            r@ == self@[i as int],
    {
        &self.items[i]
    }

    /// Whether the set holds a type of this label.
    pub fn contains(&self, label: &str) -> (r: bool)
        ensures
            r == self@.contains(label@),
    {
        let mut i: usize = 0;
        while i < self.items.len()
            invariant
                i <= self.items.len(),
                forall|j: int| 0 <= j < i ==> self@[j] != label@,
            decreases self.items.len() - i,
        {
            if same_text(self.items[i].label(), label) {
                assert(self@[i as int] == label@);
                return true;
            }
            i = i + 1;
        }
        false
    }

    /// Adds `t` where its label belongs, unless a type of that label is there.
    pub fn insert(&mut self, t: SchemaType)
        requires
            old(self).wf(),
        ensures
            final(self).wf(),
            final(self)@ == insert_label(old(self)@, t@),
    {
        let ghost s = self@;
        let mut p: usize = 0;
        while p < self.items.len() && lex_less(self.items[p].label(), t.label())
            invariant
                p <= self.items.len(),
                s == self@,
                forall|j: int| 0 <= j < p ==> lex_lt(#[trigger] s[j], t@),
            decreases self.items.len() - p,
        {
            p = p + 1;
        }
        proof {
            lemma_count_below(s, t@, p as int);
            if s.contains(t@) {
                let k = choose|k: int| 0 <= k < s.len() && s[k] == t@;
                if k < p {
                    lemma_lex_irreflexive(t@);
                }
                if k > p {
                    assert(lex_lt(s[p as int], s[k]));
                }
            }
        }
        if p < self.items.len() && same_text(self.items[p].label(), t.label()) {
            assert(s[p as int] == t@);
            return;
        }
        proof {
            if p < s.len() {
                lemma_lex_total(s[p as int], t@);
            }
            lemma_sorted_insert(s, t@, p as int);
        }
        self.items.insert(p, t);
        assert(self@ =~= s.insert(p as int, t@));
    }

    /// The members of this set that `keep` holds too.
    pub fn restrict_to(&self, keep: &TypeSet) -> (r: TypeSet)
        requires
            self.wf(),
        ensures
            r@ == keep_only(self@, keep@),
            r.wf(),
    {
        let mut items: Vec<SchemaType> = Vec::new();
        let mut i: usize = 0;
        while i < self.items.len()
            invariant
                i <= self.items.len(),
                labels_of(items@) == keep_only(self@.take(i as int), keep@),
            decreases self.items.len() - i,
        {
            assert(self@.take(i + 1).drop_last() =~= self@.take(i as int));
            assert(self@.take(i + 1).last() == self@[i as int]);
            if keep.contains(self.items[i].label()) {
                items.push(self.items[i].clone());
                assert(labels_of(items@) =~= keep_only(self@.take(i as int), keep@).push(
                    self@[i as int],
                ));
            }
            i = i + 1;
        }
        assert(self@.take(i as int) =~= self@);
        proof {
            lemma_keep_only(self@, keep@);
        }
        TypeSet { items }
    }
}

/// The set that a map gives for `key`: that of its first entry for `key`, or none.
pub open spec fn lookup<V>(m: Seq<(Seq<char>, Seq<V>)>, key: Seq<char>) -> Seq<V>
    decreases m.len(),
{
    if m.len() == 0 {
        Seq::empty()
    } else if m[0].0 == key {
        m[0].1
    } else {
        lookup(m.drop_first(), key)
    }
}

pub open spec fn has_key<V>(m: Seq<(Seq<char>, Seq<V>)>, key: Seq<char>) -> bool {
    exists|i: int| 0 <= i < m.len() && (#[trigger] m[i]).0 == key
}

pub proof fn lemma_lookup_at<V>(m: Seq<(Seq<char>, Seq<V>)>, key: Seq<char>, i: int)
    requires
        0 <= i < m.len(),
        m[i].0 == key,
        forall|j: int| 0 <= j < i ==> (#[trigger] m[j]).0 != key,
    ensures
        lookup(m, key) == m[i].1,
    decreases i,
{
    if i > 0 {
        assert(m[0].0 != key);
        assert forall|j: int| 0 <= j < i - 1 implies (#[trigger] m.drop_first()[j]).0 != key by {
            assert(m.drop_first()[j] == m[j + 1]);
        }
        lemma_lookup_at(m.drop_first(), key, i - 1);
    }
}

pub proof fn lemma_lookup_absent<V>(m: Seq<(Seq<char>, Seq<V>)>, key: Seq<char>)
    requires
        !has_key(m, key),
    ensures
        lookup(m, key) == Seq::<V>::empty(),
    decreases m.len(),
{
    if m.len() > 0 {
        assert(m[0].0 != key);
        assert forall|j: int| 0 <= j < m.drop_first().len() implies (#[trigger] m.drop_first()[j]).0
            != key by {
            assert(m.drop_first()[j] == m[j + 1]);
        }
        lemma_lookup_absent(m.drop_first(), key);
    }
}

/// What `lookup` gives is the set of some entry, or empty.
pub proof fn lemma_lookup_entry<V>(m: Seq<(Seq<char>, Seq<V>)>, key: Seq<char>)
    ensures
        lookup(m, key).len() > 0 ==> exists|i: int|
            0 <= i < m.len() && (#[trigger] m[i]).0 == key && m[i].1 == lookup(m, key),
    decreases m.len(),
{
    if m.len() > 0 && m[0].0 != key {
        lemma_lookup_entry(m.drop_first(), key);
        if lookup(m, key).len() > 0 {
            let i = choose|i: int|
                0 <= i < m.drop_first().len() && (#[trigger] m.drop_first()[i]).0 == key
                    && m.drop_first()[i].1 == lookup(m.drop_first(), key);
            assert(m[i + 1] == m.drop_first()[i]);
        }
    } else if m.len() > 0 {
        assert(m[0].0 == key);
    }
}

/// Where `i` is the first entry for `key`, changing its set changes what `key`
/// gives and nothing else.
pub proof fn lemma_lookup_update<V>(
    m: Seq<(Seq<char>, Seq<V>)>,
    key: Seq<char>,
    i: int,
    v: Seq<V>,
)
    requires
        0 <= i < m.len(),
        m[i].0 == key,
        forall|j: int| 0 <= j < i ==> (#[trigger] m[j]).0 != key,
    ensures
        forall|k: Seq<char>| #[trigger]
            lookup(m.update(i, (key, v)), k) == if k == key {
                v
            } else {
                lookup(m, k)
            },
{
    let n = m.update(i, (key, v));
    assert forall|k: Seq<char>| #[trigger]
        lookup(n, k) == if k == key {
            v
        } else {
            lookup(m, k)
        } by {
        if k == key {
            assert forall|j: int| 0 <= j < i implies (#[trigger] n[j]).0 != key by {
                assert(n[j] == m[j]);
            }
            lemma_lookup_at(n, key, i);
        } else if has_key(m, k) {
            let f = first_index(m, k);
            assert(n[f] == m[f]);
            assert forall|j: int| 0 <= j < f implies (#[trigger] n[j]).0 != k by {
                assert(n[j].0 == m[j].0);
            }
            lemma_lookup_at(m, k, f);
            lemma_lookup_at(n, k, f);
        } else {
            assert(!has_key(n, k)) by {
                if has_key(n, k) {
                    let j = choose|j: int| 0 <= j < n.len() && (#[trigger] n[j]).0 == k;
                    assert(m[j].0 == k);
                }
            }
            lemma_lookup_absent(m, k);
            lemma_lookup_absent(n, k);
        }
    }
}

/// A new entry for a key that has none gives that key its set and changes nothing
/// else.
pub proof fn lemma_lookup_push<V>(m: Seq<(Seq<char>, Seq<V>)>, key: Seq<char>, v: Seq<V>)
    requires
        !has_key(m, key),
    ensures
        forall|k: Seq<char>| #[trigger]
            lookup(m.push((key, v)), k) == if k == key {
                v
            } else {
                lookup(m, k)
            },
{
    let n = m.push((key, v));
    assert forall|k: Seq<char>| #[trigger]
        lookup(n, k) == if k == key {
            v
        } else {
            lookup(m, k)
        } by {
        if k == key {
            assert forall|j: int| 0 <= j < m.len() implies (#[trigger] n[j]).0 != key by {
                assert(n[j] == m[j]);
            }
            lemma_lookup_at(n, key, m.len() as int);
            lemma_lookup_absent(m, key);
        } else if has_key(m, k) {
            let f = first_index(m, k);
            assert(n[f] == m[f]);
            assert forall|j: int| 0 <= j < f implies (#[trigger] n[j]).0 != k by {
                assert(n[j] == m[j]);
            }
            lemma_lookup_at(m, k, f);
            lemma_lookup_at(n, k, f);
        } else {
            assert(!has_key(n, k)) by {
                if has_key(n, k) {
                    let j = choose|j: int| 0 <= j < n.len() && (#[trigger] n[j]).0 == k;
                    assert(m[j].0 == k);
                }
            }
            lemma_lookup_absent(m, k);
            lemma_lookup_absent(n, k);
        }
    }
}

/// The first entry for a key that the map has.
pub proof fn first_index<V>(m: Seq<(Seq<char>, Seq<V>)>, key: Seq<char>) -> (f: int)
    requires
        has_key(m, key),
    ensures
        0 <= f < m.len(),
        m[f].0 == key,
        forall|j: int| 0 <= j < f ==> (#[trigger] m[j]).0 != key,
    decreases m.len(),
{
    if m[0].0 == key {
        0
    } else {
        let i = choose|i: int| 0 <= i < m.len() && (#[trigger] m[i]).0 == key;
        assert(m.drop_first()[i - 1] == m[i]);
        let f = first_index(m.drop_first(), key);
        assert forall|j: int| 0 <= j < f + 1 implies (#[trigger] m[j]).0 != key by {
            if j > 0 {
                assert(m[j] == m.drop_first()[j - 1]);
            }
        }
        assert(m[f + 1] == m.drop_first()[f]);
        f + 1
    }
}

/// A map from a type to a set of types.
#[derive(Debug)]
pub struct TypeMap {
    entries: Vec<(SchemaType, TypeSet)>,
}

impl View for TypeMap {
    type V = Seq<(Seq<char>, Seq<Seq<char>>)>;

    closed spec fn view(&self) -> Seq<(Seq<char>, Seq<Seq<char>>)> {
        self.entries@.map_values(|e: (SchemaType, TypeSet)| (e.0@, e.1@))
    }
}

impl Clone for TypeMap {
    fn clone(&self) -> (r: Self)
        ensures
            r@ == self@,
            self.wf() ==> r.wf(),
    {
        let mut entries: Vec<(SchemaType, TypeSet)> = Vec::new();
        let mut i: usize = 0;
        while i < self.entries.len()
            invariant
                i <= self.entries.len(),
                entries@.len() == i,
                forall|j: int|
                    0 <= j < i ==> (#[trigger] entries@[j]).0@ == self.entries@[j].0@
                        && entries@[j].1@ == self.entries@[j].1@,
            decreases self.entries.len() - i,
        {
            let k = self.entries[i].0.clone();
            let v = self.entries[i].1.clone();
            entries.push((k, v));
            i = i + 1;
        }
        let r = TypeMap { entries };
        assert(r@ =~= self@);
        r
    }
}

impl TypeMap {
    /// Each set is sorted.
    pub closed spec fn wf(&self) -> bool {
        forall|i: int| 0 <= i < self.entries@.len() ==> (#[trigger] self.entries@[i]).1.wf()
    }

    pub fn new() -> (r: TypeMap)
        ensures
            r@ == Seq::<(Seq<char>, Seq<Seq<char>>)>::empty(),
            r.wf(),
    {
        let r = TypeMap { entries: Vec::new() };
        assert(r@ =~= Seq::<(Seq<char>, Seq<Seq<char>>)>::empty());
        r
    }

    /// The set this map gives for a type of this label, if it has an entry for it.
    pub fn get(&self, label: &str) -> (r: Option<&TypeSet>)
        requires
            self.wf(),
        ensures
            match r {
                Some(s) => s@ == lookup(self@, label@) && s.wf() && has_key(self@, label@),
                None => !has_key(self@, label@) && lookup(self@, label@) == Seq::<
                    Seq<char>,
                >::empty(),
            },
    {
        let mut i: usize = 0;
        while i < self.entries.len()
            invariant
                i <= self.entries.len(),
                self.wf(),
                forall|j: int| 0 <= j < i ==> (#[trigger] self@[j]).0 != label@,
            decreases self.entries.len() - i,
        {
            if same_text(self.entries[i].0.label(), label) {
                proof {
                    assert(self@[i as int] == (self.entries@[i as int].0@, self.entries@[i as int].1@));
                    assert(self.entries@[i as int].1.wf());
                    assert(self@[i as int].0 == label@);
                    lemma_lookup_at(self@, label@, i as int);
                }
                return Some(&self.entries[i].1);
            }
            i = i + 1;
        }
        proof {
            lemma_lookup_absent(self@, label@);
        }
        None
    }

    /// Adds `value` to the set of `key`.
    pub fn add(&mut self, key: SchemaType, value: SchemaType)
        requires
            old(self).wf(),
        ensures
            final(self).wf(),
            forall|k: Seq<char>| #[trigger]
                lookup(final(self)@, k) == if k == key@ {
                    insert_label(lookup(old(self)@, k), value@)
                } else {
                    lookup(old(self)@, k)
                },
            forall|k: Seq<char>| #[trigger]
                has_key(final(self)@, k) <==> (has_key(old(self)@, k) || k == key@),
    {
        let ghost m = self@;
        let mut i: usize = 0;
        while i < self.entries.len()
            invariant
                i <= self.entries.len(),
                m == self@,
                m == old(self)@,
                self.wf(),
                forall|j: int| 0 <= j < i ==> (#[trigger] m[j]).0 != key@,
            decreases self.entries.len() - i,
        {
            if same_text(self.entries[i].0.label(), key.label()) {
                let mut set = self.entries[i].1.clone();
                assert(self.entries@[i as int].1.wf());
                assert(m[i as int] == (self.entries@[i as int].0@, self.entries@[i as int].1@));
                set.insert(value);
                proof {
                    lemma_lookup_at(m, key@, i as int);
                    lemma_lookup_update(m, key@, i as int, set@);
                }
                let k = self.entries[i].0.clone();
                let ghost before = self.entries@;
                self.entries.set(i, (k, set));
                assert(self@ =~= m.update(i as int, (key@, set@)));
                assert(self.wf()) by {
                    assert forall|j: int| 0 <= j < self.entries@.len() implies (
                    #[trigger] self.entries@[j]).1.wf() by {
                        if j != i {
                            assert(self.entries@[j] == before[j]);
                        }
                    }
                }
                assert forall|k: Seq<char>| #[trigger] has_key(self@, k) <==> (has_key(m, k) || k == key@) by {
                    if has_key(self@, k) {
                        let j = choose|j: int| 0 <= j < self@.len() && (#[trigger] self@[j]).0 == k;
                        assert(m[j].0 == self@[j].0);
                    }
                    if has_key(m, k) {
                        let j = choose|j: int| 0 <= j < m.len() && (#[trigger] m[j]).0 == k;
                        assert(m[j].0 == self@[j].0);
                    }
                    if k == key@ {
                        assert(self@[i as int].0 == k);
                    }
                }
                return;
            }
            i = i + 1;
        }
        let set = TypeSet::singleton(value);
        proof {
            assert(!has_key(m, key@));
            lemma_lookup_absent(m, key@);
            lemma_lookup_push(m, key@, set@);
            assert(insert_label(Seq::<Seq<char>>::empty(), value@) =~= seq![value@]) by {
                assert(count_below(Seq::<Seq<char>>::empty(), value@) == 0);
            }
        }
        let ghost before = self.entries@;
        self.entries.push((key, set));
        assert(self@ =~= m.push((key@, set@)));
        assert(self.wf()) by {
            assert forall|j: int| 0 <= j < self.entries@.len() implies (
            #[trigger] self.entries@[j]).1.wf() by {
                if j < before.len() {
                    assert(self.entries@[j] == before[j]);
                }
            }
        }
        assert forall|k: Seq<char>| #[trigger] has_key(self@, k) <==> (has_key(m, k) || k == key@) by {
            if has_key(self@, k) {
                let j = choose|j: int| 0 <= j < self@.len() && (#[trigger] self@[j]).0 == k;
                if j < m.len() {
                    assert(m[j] == self@[j]);
                }
            }
            if has_key(m, k) {
                let j = choose|j: int| 0 <= j < m.len() && (#[trigger] m[j]).0 == k;
                assert(m[j] == self@[j]);
            }
            if k == key@ {
                assert(self@[m.len() as int].0 == k);
            }
        }
    }
}

impl TypeMap {
    /// The key of the first entry for this label.
    pub fn find_key(&self, label: &str) -> (r: Option<SchemaType>)
        ensures
            match r {
                Some(t) => t@ == label@ && has_key(self@, label@),
                None => !has_key(self@, label@),
            },
    {
        let mut i: usize = 0;
        while i < self.entries.len()
            invariant
                i <= self.entries.len(),
                forall|j: int| 0 <= j < i ==> (#[trigger] self@[j]).0 != label@,
            decreases self.entries.len() - i,
        {
            if same_text(self.entries[i].0.label(), label) {
                assert(self@[i as int].0 == label@);
                return Some(self.entries[i].0.clone());
            }
            i = i + 1;
        }
        None
    }
}

/// Whether `edges` holds an edge from a type labelled `l` to one labelled `x`.
pub open spec fn has_edge(edges: Seq<(SchemaType, SchemaType)>, l: Seq<char>, x: Seq<char>) -> bool {
    exists|j: int| 0 <= j < edges.len() && (#[trigger] edges[j]).0@ == l && edges[j].1@ == x
}

/// Indexes edges both ways: the first map takes the left end of each edge to its
/// right ends, the second the right end to its left ends.
pub fn index_edges(edges: &Vec<(SchemaType, SchemaType)>) -> (r: (TypeMap, TypeMap))
    ensures
        r.0.wf(),
        r.1.wf(),
        forall|l: Seq<char>, x: Seq<char>| #[trigger]
            lookup(r.0@, l).contains(x) <==> has_edge(edges@, l, x),
        forall|l: Seq<char>, x: Seq<char>| #[trigger]
            lookup(r.1@, x).contains(l) <==> has_edge(edges@, l, x),
        forall|l: Seq<char>| #[trigger] has_key(r.0@, l) ==> lookup(r.0@, l).len() > 0,
        forall|x: Seq<char>| #[trigger] has_key(r.1@, x) ==> lookup(r.1@, x).len() > 0,
{
    let mut forward = TypeMap::new();
    let mut backward = TypeMap::new();
    let mut i: usize = 0;
    while i < edges.len()
        invariant
            i <= edges.len(),
            forward.wf(),
            backward.wf(),
            forall|l: Seq<char>, x: Seq<char>| #[trigger]
                lookup(forward@, l).contains(x) <==> has_edge(edges@.take(i as int), l, x),
            forall|l: Seq<char>, x: Seq<char>| #[trigger]
                lookup(backward@, x).contains(l) <==> has_edge(edges@.take(i as int), l, x),
            forall|l: Seq<char>| #[trigger] has_key(forward@, l) ==> lookup(forward@, l).len() > 0,
            forall|x: Seq<char>| #[trigger] has_key(backward@, x) ==> lookup(backward@, x).len() > 0,
        decreases edges.len() - i,
    {
        let ghost f0 = forward@;
        let ghost b0 = backward@;
        let l = edges[i].0.clone();
        let x = edges[i].1.clone();
        forward.add(l.clone(), x.clone());
        backward.add(x, l);
        proof {
            let e = edges@.take(i as int);
            let e1 = edges@.take(i + 1);
            assert forall|a: Seq<char>, b: Seq<char>| has_edge(e1, a, b) <==> (has_edge(e, a, b) || (
            a == edges@[i as int].0@ && b == edges@[i as int].1@)) by {
                if has_edge(e1, a, b) {
                    let j = choose|j: int| 0 <= j < e1.len() && (#[trigger] e1[j]).0@ == a && e1[j].1@ == b;
                    if j < i {
                        assert(e[j] == e1[j]);
                    }
                }
                if has_edge(e, a, b) {
                    let j = choose|j: int| 0 <= j < e.len() && (#[trigger] e[j]).0@ == a && e[j].1@ == b;
                    assert(e[j] == e1[j]);
                }
                if a == edges@[i as int].0@ && b == edges@[i as int].1@ {
                    assert(e1[i as int] == edges@[i as int]);
                }
            }
            assert forall|a: Seq<char>, b: Seq<char>| #[trigger] lookup(forward@, a).contains(b) <==> has_edge(e1, a, b) by {
                lemma_insert_label_contains(lookup(f0, a), b);
                lemma_insert_label_contains(lookup(f0, a), x@);
            }
            assert forall|a: Seq<char>, b: Seq<char>| #[trigger] lookup(backward@, b).contains(a) <==> has_edge(e1, a, b) by {
                lemma_insert_label_contains(lookup(b0, b), l@);
            }
            assert forall|a: Seq<char>| #[trigger] has_key(forward@, a) implies lookup(forward@, a).len() > 0 by {
                if a == l@ {
                    lemma_insert_label_contains(lookup(f0, a), x@);
                    assert(lookup(forward@, a).contains(x@));
                }
            }
            assert forall|a: Seq<char>| #[trigger] has_key(backward@, a) implies lookup(backward@, a).len() > 0 by {
                if a == x@ {
                    lemma_insert_label_contains(lookup(b0, a), l@);
                    assert(lookup(backward@, a).contains(l@));
                }
            }
        }
        i = i + 1;
    }
    assert(edges@.take(i as int) =~= edges@);
    (forward, backward)
}

/// The observed value of an attribute, as the literal text that a pattern writes
/// for it.
#[derive(Debug)]
pub struct AttributeValue {
    pub literal: String,
}

impl View for AttributeValue {
    type V = Seq<char>;

    open spec fn view(&self) -> Seq<char> {
        self.literal@
    }
}

impl Clone for AttributeValue {
    fn clone(&self) -> (r: Self)
        ensures
            r@ == self@,
    {
        AttributeValue { literal: self.literal.clone() }
    }
}

pub open spec fn values_of(s: Seq<AttributeValue>) -> Seq<Seq<char>> {
    s.map_values(|v: AttributeValue| v@)
}

/// The distinct values that `rows` gives for the attribute type `a`, in the order
/// they first come.
pub open spec fn values_for(rows: Seq<(SchemaType, AttributeValue)>, a: Seq<char>) -> Seq<Seq<char>>
    decreases rows.len(),
{
    if rows.len() == 0 {
        Seq::empty()
    } else {
        let before = values_for(rows.drop_last(), a);
        if rows.last().0@ == a && !before.contains(rows.last().1@) {
            before.push(rows.last().1@)
        } else {
            before
        }
    }
}

/// Whether `values` holds `v`.
fn has_value(values: &Vec<AttributeValue>, v: &AttributeValue) -> (r: bool)
    ensures
        r == values_of(values@).contains(v@),
{
    let mut i: usize = 0;
    while i < values.len()
        invariant
            i <= values.len(),
            forall|j: int| 0 <= j < i ==> values@[j]@ != v@,
        decreases values.len() - i,
    {
        if same_text(values[i].literal.as_str(), v.literal.as_str()) {
            assert(values_of(values@)[i as int] == v@);
            return true;
        }
        i = i + 1;
    }
    assert forall|j: int| 0 <= j < values_of(values@).len() implies values_of(values@)[j] != v@ by {
        assert(values_of(values@)[j] == values@[j]@);
    }
    false
}

/// A map from an attribute type to its observed values.
#[derive(Debug)]
pub struct ValueMap {
    entries: Vec<(SchemaType, Vec<AttributeValue>)>,
}

impl View for ValueMap {
    type V = Seq<(Seq<char>, Seq<Seq<char>>)>;

    closed spec fn view(&self) -> Seq<(Seq<char>, Seq<Seq<char>>)> {
        self.entries@.map_values(|e: (SchemaType, Vec<AttributeValue>)| (e.0@, values_of(e.1@)))
    }
}

impl ValueMap {
    /// Groups `rows` by attribute type.
    pub fn from_rows(rows: &Vec<(SchemaType, AttributeValue)>) -> (r: ValueMap)
        ensures
            forall|a: Seq<char>| #[trigger] lookup(r@, a) == values_for(rows@, a),
    {
        let mut m = ValueMap { entries: Vec::new() };
        assert(m@ =~= Seq::<(Seq<char>, Seq<Seq<char>>)>::empty());
        let mut i: usize = 0;
        while i < rows.len()
            invariant
                i <= rows.len(),
                forall|a: Seq<char>| #[trigger] lookup(m@, a) == values_for(rows@.take(i as int), a),
            decreases rows.len() - i,
        {
            let ghost before = m@;
            m.add(rows[i].0.clone(), rows[i].1.clone());
            proof {
                assert(rows@.take(i + 1).drop_last() =~= rows@.take(i as int));
                assert forall|a: Seq<char>| #[trigger] lookup(m@, a) == values_for(rows@.take(i + 1), a) by {
                    assert(rows@.take(i + 1).last() == rows@[i as int]);
                }
            }
            i = i + 1;
        }
        assert(rows@.take(i as int) =~= rows@);
        m
    }

    /// Adds `value` to the values of `key`, unless it is there already.
    fn add(&mut self, key: SchemaType, value: AttributeValue)
        ensures
            forall|k: Seq<char>| #[trigger]
                lookup(final(self)@, k) == if k == key@ && !lookup(old(self)@, k).contains(value@) {
                    lookup(old(self)@, k).push(value@)
                } else {
                    lookup(old(self)@, k)
                },
    {
        let ghost m = self@;
        let mut i: usize = 0;
        while i < self.entries.len()
            invariant
                i <= self.entries.len(),
                m == self@,
                m == old(self)@,
                forall|j: int| 0 <= j < i ==> (#[trigger] m[j]).0 != key@,
            decreases self.entries.len() - i,
        {
            if same_text(self.entries[i].0.label(), key.label()) {
                assert(m[i as int] == (self.entries@[i as int].0@, values_of(self.entries@[i as int].1@)));
                proof {
                    lemma_lookup_at(m, key@, i as int);
                }
                if has_value(&self.entries[i].1, &value) {
                    return;
                }
                let mut values = self.entries[i].1.clone();
                let ghost old_values = self.entries@[i as int].1@;
                assert(values_of(values@) =~= values_of(old_values)) by {
                    assert forall|j: int| 0 <= j < values@.len() implies values@[j]@ == old_values[j]@ by {
                        assert(cloned(old_values[j], values@[j]));
                    }
                }
                let ghost vs = values@;
                values.push(value);
                assert(values_of(values@) =~= values_of(vs).push(value@));
                proof {
                    lemma_lookup_at(m, key@, i as int);
                    lemma_lookup_update(m, key@, i as int, values_of(values@));
                }
                let k = self.entries[i].0.clone();
                self.entries.set(i, (k, values));
                assert(self@ =~= m.update(i as int, (key@, values_of(values@))));
                return;
            }
            i = i + 1;
        }
        let mut values: Vec<AttributeValue> = Vec::new();
        values.push(value);
        proof {
            assert(!has_key(m, key@));
            lemma_lookup_absent(m, key@);
            lemma_lookup_push(m, key@, values_of(values@));
            assert(values_of(values@) =~= Seq::<Seq<char>>::empty().push(value@));
            assert(!Seq::<Seq<char>>::empty().contains(value@));
        }
        self.entries.push((key, values));
        assert(self@ =~= m.push((key@, values_of(values@))));
    }

    /// The observed values of the attribute type of this label.
    pub fn get(&self, label: &str) -> (r: Option<&Vec<AttributeValue>>)
        ensures
            match r {
                Some(v) => values_of(v@) == lookup(self@, label@),
                None => lookup(self@, label@) == Seq::<Seq<char>>::empty(),
            },
    {
        let mut i: usize = 0;
        while i < self.entries.len()
            invariant
                i <= self.entries.len(),
                forall|j: int| 0 <= j < i ==> (#[trigger] self@[j]).0 != label@,
            decreases self.entries.len() - i,
        {
            if same_text(self.entries[i].0.label(), label) {
                proof {
                    assert(self@[i as int] == (self.entries@[i as int].0@, values_of(self.entries@[i as int].1@)));
                    lemma_lookup_at(self@, label@, i as int);
                }
                return Some(&self.entries[i].1);
            }
            i = i + 1;
        }
        proof {
            lemma_lookup_absent(self@, label@);
        }
        None
    }
}

/// The schema as values: each edge map as its entries.
pub struct SchemaModel {
    pub owns: Seq<(Seq<char>, Seq<Seq<char>>)>,
    pub owners: Seq<(Seq<char>, Seq<Seq<char>>)>,
    pub relates: Seq<(Seq<char>, Seq<Seq<char>>)>,
    pub related_by: Seq<(Seq<char>, Seq<Seq<char>>)>,
    pub plays: Seq<(Seq<char>, Seq<Seq<char>>)>,
    pub players: Seq<(Seq<char>, Seq<Seq<char>>)>,
    pub subtypes: Seq<(Seq<char>, Seq<Seq<char>>)>,
    pub categorical: Seq<(Seq<char>, Seq<Seq<char>>)>,
}

/// What the refinement operator relies on: each map is the inverse of its
/// partner, and every role that a type plays or a relation relates has a
/// relation relating it and a type playing it.
pub open spec fn consistent(m: SchemaModel) -> bool {
    &&& forall|t: Seq<char>, a: Seq<char>| #[trigger]
        lookup(m.owns, t).contains(a) ==> lookup(m.owners, a).contains(t)
    &&& forall|t: Seq<char>, a: Seq<char>| #[trigger]
        lookup(m.owners, a).contains(t) ==> lookup(m.owns, t).contains(a)
    &&& forall|t: Seq<char>, r: Seq<char>| #[trigger]
        lookup(m.players, r).contains(t) ==> lookup(m.plays, t).contains(r)
    &&& forall|t: Seq<char>, r: Seq<char>| #[trigger]
        lookup(m.related_by, r).contains(t) ==> lookup(m.relates, t).contains(r)
    &&& forall|t: Seq<char>, r: Seq<char>| #[trigger]
        lookup(m.plays, t).contains(r) ==> lookup(m.players, r).contains(t) && lookup(
            m.related_by,
            r,
        ).len() > 0
    &&& forall|t: Seq<char>, r: Seq<char>| #[trigger]
        lookup(m.relates, t).contains(r) ==> lookup(m.related_by, r).contains(t) && lookup(
            m.players,
            r,
        ).len() > 0
}

/// An index of the type relationships of a database schema.
#[derive(Debug)]
pub struct Schema {
    /// Entity and relation types to the attribute types they own.
    pub owns: TypeMap,
    pub owners: TypeMap,
    /// Relation types to their role types.
    pub relates: TypeMap,
    pub related_by: TypeMap,
    /// Entity and relation types to the roles they can play.
    pub plays: TypeMap,
    pub players: TypeMap,
    /// Types to their subtypes.
    pub subtypes: TypeMap,
    pub categorical_attribute_values: ValueMap,
}

impl View for Schema {
    type V = SchemaModel;

    open spec fn view(&self) -> SchemaModel {
        SchemaModel {
            owns: self.owns@,
            owners: self.owners@,
            relates: self.relates@,
            related_by: self.related_by@,
            plays: self.plays@,
            players: self.players@,
            subtypes: self.subtypes@,
            categorical: self.categorical_attribute_values@,
        }
    }
}

/// A schema whose edges leave a role without a relation or without a player.
#[derive(Debug)]
pub enum SchemaError {
    /// A type plays this role, but no relation relates it.
    RoleWithoutRelation { role: String },
    /// A relation relates this role, but no type plays it.
    RoleWithoutPlayer { role: String },
}

/// Some edge of `edges` has a right end labelled `x`.
pub open spec fn has_right_end(edges: Seq<(SchemaType, SchemaType)>, x: Seq<char>) -> bool {
    exists|k: int| 0 <= k < edges.len() && (#[trigger] edges[k]).1@ == x
}

/// Every role at the right end of `edges` is at the right end of some edge of `others`.
pub open spec fn right_ends_covered(
    edges: Seq<(SchemaType, SchemaType)>,
    others: Seq<(SchemaType, SchemaType)>,
) -> bool {
    forall|j: int| 0 <= j < edges.len() ==> has_right_end(others, (#[trigger] edges[j]).1@)
}

/// Finds an edge whose right end no edge of `others` has, if there is one.
fn uncovered_right_end(
    edges: &Vec<(SchemaType, SchemaType)>,
    others: &TypeMap,
    ghost_others: Ghost<Seq<(SchemaType, SchemaType)>>,
) -> (r: Option<usize>)
    requires
        others.wf(),
        forall|l: Seq<char>, x: Seq<char>| #[trigger]
            lookup(others@, x).contains(l) <==> has_edge(ghost_others@, l, x),
        forall|x: Seq<char>| #[trigger] has_key(others@, x) ==> lookup(others@, x).len() > 0,
    ensures
        match r {
            Some(j) => j < edges@.len() && !has_key(others@, edges@[j as int].1@) && forall|
                k: int,
            |
                0 <= k < ghost_others@.len() ==> (#[trigger] ghost_others@[k]).1@
                    != edges@[j as int].1@,
            None => right_ends_covered(edges@, ghost_others@) && forall|j: int|
                0 <= j < edges@.len() ==> lookup(others@, (#[trigger] edges@[j]).1@).len() > 0,
        },
{
    let mut i: usize = 0;
    while i < edges.len()
        invariant
            i <= edges.len(),
            others.wf(),
            forall|l: Seq<char>, x: Seq<char>| #[trigger]
                lookup(others@, x).contains(l) <==> has_edge(ghost_others@, l, x),
            forall|x: Seq<char>| #[trigger] has_key(others@, x) ==> lookup(others@, x).len() > 0,
            forall|j: int|
                0 <= j < i ==> lookup(others@, (#[trigger] edges@[j]).1@).len() > 0,
        decreases edges.len() - i,
    {
        match others.get(edges[i].1.label()) {
            None => {
                assert forall|k: int| 0 <= k < ghost_others@.len() implies (
                #[trigger] ghost_others@[k]).1@ != edges@[i as int].1@ by {
                    if ghost_others@[k].1@ == edges@[i as int].1@ {
                        assert(has_edge(ghost_others@, ghost_others@[k].0@, edges@[i as int].1@));
                        assert(lookup(others@, edges@[i as int].1@).contains(ghost_others@[k].0@));
                    }
                }
                return Some(i);
            },
            Some(_) => {
                assert(lookup(others@, edges@[i as int].1@).len() > 0);
            },
        }
        i = i + 1;
    }
    assert forall|j: int| 0 <= j < edges@.len() implies has_right_end(
        ghost_others@,
        (#[trigger] edges@[j]).1@,
    ) by {
        let x = edges@[j].1@;
        let s = lookup(others@, x);
        assert(s.contains(s[0]));
        assert(has_edge(ghost_others@, s[0], x));
        let k = choose|k: int|
            0 <= k < ghost_others@.len() && (#[trigger] ghost_others@[k]).0@ == s[0]
                && ghost_others@[k].1@ == x;
        assert(ghost_others@[k].1@ == edges@[j].1@);
    }
    None
}

impl Schema {
    /// Builds the schema from the edges that the database lists: `owns`
    /// (owner, attribute type), `relates` (relation, role), `plays` (player, role)
    /// and `sub` (subtype, supertype) edges, and the observed values of the
    /// categorical attribute types. Fails on a role that a type plays but no
    /// relation relates, or that a relation relates but no type plays.
    pub fn from_edges(
        owns: &Vec<(SchemaType, SchemaType)>,
        relates: &Vec<(SchemaType, SchemaType)>,
        plays: &Vec<(SchemaType, SchemaType)>,
        sub: &Vec<(SchemaType, SchemaType)>,
        categorical_values: &Vec<(SchemaType, AttributeValue)>,
    ) -> (r: Result<Schema, SchemaError>)
        ensures
            r is Ok <==> (right_ends_covered(plays@, relates@) && right_ends_covered(
                relates@,
                plays@,
            )),
            match r {
                Ok(s) => {
                    &&& s.wf()
                    &&& forall|l: Seq<char>, x: Seq<char>| #[trigger]
                        lookup(s@.owns, l).contains(x) <==> has_edge(owns@, l, x)
                    &&& forall|l: Seq<char>, x: Seq<char>| #[trigger]
                        lookup(s@.owners, x).contains(l) <==> has_edge(owns@, l, x)
                    &&& forall|l: Seq<char>, x: Seq<char>| #[trigger]
                        lookup(s@.relates, l).contains(x) <==> has_edge(relates@, l, x)
                    &&& forall|l: Seq<char>, x: Seq<char>| #[trigger]
                        lookup(s@.related_by, x).contains(l) <==> has_edge(relates@, l, x)
                    &&& forall|l: Seq<char>, x: Seq<char>| #[trigger]
                        lookup(s@.plays, l).contains(x) <==> has_edge(plays@, l, x)
                    &&& forall|l: Seq<char>, x: Seq<char>| #[trigger]
                        lookup(s@.players, x).contains(l) <==> has_edge(plays@, l, x)
                    &&& forall|l: Seq<char>, x: Seq<char>| #[trigger]
                        lookup(s@.subtypes, x).contains(l) <==> has_edge(sub@, l, x)
                    &&& forall|a: Seq<char>| #[trigger]
                        lookup(s@.categorical, a) == values_for(categorical_values@, a)
                },
                Err(SchemaError::RoleWithoutRelation { role }) => exists|j: int|
                    0 <= j < plays@.len() && (#[trigger] plays@[j]).1@ == role@ && forall|k: int|
                        0 <= k < relates@.len() ==> (#[trigger] relates@[k]).1@ != role@,
                Err(SchemaError::RoleWithoutPlayer { role }) => exists|j: int|
                    0 <= j < relates@.len() && (#[trigger] relates@[j]).1@ == role@ && forall|
                        k: int,
                    |
                        0 <= k < plays@.len() ==> (#[trigger] plays@[k]).1@ != role@,
            },
    {
        let (owns_map, owners_map) = index_edges(owns);
        let (relates_map, related_by_map) = index_edges(relates);
        let (plays_map, players_map) = index_edges(plays);
        let (_supertypes, subtypes_map) = index_edges(sub);
        match uncovered_right_end(plays, &related_by_map, Ghost(relates@)) {
            Some(j) => {
                return Err(SchemaError::RoleWithoutRelation { role: plays[j].1.label.clone() });
            },
            None => {},
        }
        match uncovered_right_end(relates, &players_map, Ghost(plays@)) {
            Some(j) => {
                return Err(SchemaError::RoleWithoutPlayer { role: relates[j].1.label.clone() });
            },
            None => {},
        }
        let categorical_attribute_values = ValueMap::from_rows(categorical_values);
        let s = Schema {
            owns: owns_map,
            owners: owners_map,
            relates: relates_map,
            related_by: related_by_map,
            plays: plays_map,
            players: players_map,
            subtypes: subtypes_map,
            categorical_attribute_values,
        };
        assert forall|t: Seq<char>, r: Seq<char>| #[trigger]
            lookup(s@.plays, t).contains(r) implies lookup(s@.related_by, r).len() > 0 by {
            let j = choose|j: int| 0 <= j < plays@.len() && (#[trigger] plays@[j]).0@ == t && plays@[j].1@ == r;
            assert(lookup(related_by_map@, plays@[j].1@).len() > 0);
        }
        assert forall|t: Seq<char>, r: Seq<char>| #[trigger]
            lookup(s@.relates, t).contains(r) implies lookup(s@.players, r).len() > 0 by {
            let j = choose|j: int| 0 <= j < relates@.len() && (#[trigger] relates@[j]).0@ == t && relates@[j].1@ == r;
            assert(lookup(players_map@, relates@[j].1@).len() > 0);
        }
        Ok(s)
    }

    /// Each map's sets are sorted, and the maps are consistent.
    pub open spec fn wf(&self) -> bool {
        &&& self.owns.wf()
        &&& self.owners.wf()
        &&& self.relates.wf()
        &&& self.related_by.wf()
        &&& self.plays.wf()
        &&& self.players.wf()
        &&& self.subtypes.wf()
        &&& consistent(self@)
    }
}

/// Options for discovering a hypothesis language.
#[derive(Debug)]
pub enum LanguageDiscoveryOption {
    /// Attribute types whose observed values become literals of refinements.
    CategoricalAttributes { type_labels: Vec<String> },
}

pub open spec fn option_labels(o: LanguageDiscoveryOption) -> Seq<Seq<char>> {
    match o {
        LanguageDiscoveryOption::CategoricalAttributes { type_labels } => type_labels@.map_values(
            |s: String| s@,
        ),
    }
}

/// The labels that all options name, in their order.
pub open spec fn all_option_labels(options: Seq<LanguageDiscoveryOption>) -> Seq<Seq<char>>
    decreases options.len(),
{
    if options.len() == 0 {
        Seq::empty()
    } else {
        all_option_labels(options.drop_last()) + option_labels(options.last())
    }
}

/// The attribute types whose observed values the options ask for.
pub fn categorical_labels(options: &Vec<LanguageDiscoveryOption>) -> (r: Vec<String>)
    ensures
        r@.map_values(|s: String| s@) == all_option_labels(options@),
{
    let mut r: Vec<String> = Vec::new();
    let mut i: usize = 0;
    while i < options.len()
        invariant
            i <= options.len(),
            r@.map_values(|s: String| s@) == all_option_labels(options@.take(i as int)),
        decreases options.len() - i,
    {
        assert(options@.take(i + 1).drop_last() =~= options@.take(i as int));
        assert(options@.take(i + 1).last() == options@[i as int]);
        match &options[i] {
            LanguageDiscoveryOption::CategoricalAttributes { type_labels } => {
                let ghost start = r@.map_values(|s: String| s@);
                let mut j: usize = 0;
                while j < type_labels.len()
                    invariant
                        j <= type_labels.len(),
                        r@.map_values(|s: String| s@) == start + type_labels@.take(j as int).map_values(
                            |s: String| s@,
                        ),
                    decreases type_labels.len() - j,
                {
                    let ghost before = r@;
                    let t = type_labels[j].clone();
                    r.push(t);
                    assert(r@.map_values(|s: String| s@) =~= before.map_values(|s: String| s@).push(t@));
                    assert(type_labels@.take(j + 1).map_values(|s: String| s@) =~= type_labels@.take(
                        j as int,
                    ).map_values(|s: String| s@).push(t@));
                    j = j + 1;
                }
                assert(type_labels@.take(j as int) =~= type_labels@);
            },
        }
        i = i + 1;
    }
    assert(options@.take(i as int) =~= options@);
    r
}

/// The hypothesis language: what refinement may say about a database.
#[derive(Debug)]
pub struct HypothesisLanguage {
    pub schema: Schema,
}

impl HypothesisLanguage {
    /// The type of this label, if the schema has it.
    pub fn lookup_type(&self, label: &str) -> (r: Option<SchemaType>)
        ensures
            match r {
                Some(t) => t@ == label@ && has_key(self.schema@.subtypes, label@),
                None => !has_key(self.schema@.subtypes, label@),
            },
    {
        self.schema.subtypes.find_key(label)
    }
}

} // verus!


