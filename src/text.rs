//! Character sequences: the order in which labels and variable names are kept,
//! and the small pieces of text that clause rendering is built from.
use itertools::Itertools;
use vstd::prelude::*;
use vstd::string::*;

verus! {

/// Strict lexicographic order on character sequences, comparing code points.
/// This is the order of `str`'s `Ord`.
pub open spec fn lex_lt(a: Seq<char>, b: Seq<char>) -> bool
    decreases a.len(),
{
    if a.len() == 0 {
        b.len() > 0
    } else if b.len() == 0 {
        false
    } else if a[0] != b[0] {
        (a[0] as int) < (b[0] as int)
    } else {
        lex_lt(a.drop_first(), b.drop_first())
    }
}

pub proof fn lemma_lex_irreflexive(a: Seq<char>)
    ensures
        !lex_lt(a, a),
    decreases a.len(),
{
    if a.len() > 0 {
        lemma_lex_irreflexive(a.drop_first());
    }
}

pub proof fn lemma_lex_transitive(a: Seq<char>, b: Seq<char>, c: Seq<char>)
    requires
        lex_lt(a, b),
        lex_lt(b, c),
    ensures
        lex_lt(a, c),
    decreases a.len(),
{
    if a.len() > 0 && b.len() > 0 && c.len() > 0 && a[0] == b[0] && b[0] == c[0] {
        lemma_lex_transitive(a.drop_first(), b.drop_first(), c.drop_first());
    }
}

pub proof fn lemma_lex_total(a: Seq<char>, b: Seq<char>)
    ensures
        a == b || lex_lt(a, b) || lex_lt(b, a),
    decreases a.len(),
{
    if a.len() > 0 && b.len() > 0 && a[0] == b[0] {
        lemma_lex_total(a.drop_first(), b.drop_first());
        if a.drop_first() == b.drop_first() {
            assert(a =~= b) by {
                assert(a.len() == a.drop_first().len() + 1);
                assert(b.len() == b.drop_first().len() + 1);
                assert forall|i: int| 0 <= i < a.len() implies a[i] == b[i] by {
                    if i > 0 {
                        assert(a[i] == a.drop_first()[i - 1]);
                        assert(b[i] == b.drop_first()[i - 1]);
                    }
                }
            }
        }
    } else if a.len() == 0 && b.len() == 0 {
        assert(a =~= b);
    } else if a.len() > 0 && b.len() > 0 {
        assert((a[0] as int) != (b[0] as int));
    }
}

/// Decides `lex_lt` on two strings.
pub fn lex_less(a: &str, b: &str) -> (r: bool)
    ensures
        r == lex_lt(a@, b@),
{
    let la = a.unicode_len();
    let lb = b.unicode_len();
    let mut i: usize = 0;
    assert(a@.skip(0) =~= a@);
    assert(b@.skip(0) =~= b@);
    while i < la && i < lb
        invariant
            i <= la,
            i <= lb,
            la == a@.len(),
            lb == b@.len(),
            lex_lt(a@, b@) == lex_lt(a@.skip(i as int), b@.skip(i as int)),
        decreases la - i,
    {
        let ca = a.get_char(i);
        let cb = b.get_char(i);
        if ca != cb {
            return (ca as u32) < (cb as u32);
        }
        assert(a@.skip(i as int).drop_first() =~= a@.skip(i + 1));
        assert(b@.skip(i as int).drop_first() =~= b@.skip(i + 1));
        i = i + 1;
    }
    i == la && i < lb
}

/// Whether two strings hold the same characters.
pub fn same_text(a: &str, b: &str) -> (r: bool)
    ensures
        r == (a@ == b@),
{
    let la = a.unicode_len();
    let lb = b.unicode_len();
    if la != lb {
        return false;
    }
    let mut i: usize = 0;
    while i < la
        invariant
            i <= la,
            la == a@.len(),
            lb == b@.len(),
            la == lb,
            forall|j: int| 0 <= j < i ==> a@[j] == b@[j],
        decreases la - i,
    {
        if a.get_char(i) != b.get_char(i) {
            return false;
        }
        i = i + 1;
    }
    assert(a@ =~= b@);
    true
}

/// Strictly increasing in `lex_lt`: sorted, without repetition.
pub open spec fn strictly_sorted(s: Seq<Seq<char>>) -> bool {
    forall|i: int, j: int| 0 <= i < j < s.len() ==> lex_lt(#[trigger] s[i], #[trigger] s[j])
}

/// How many members of `s` come before `x`: where `x` goes in a sorted `s`.
pub open spec fn count_below(s: Seq<Seq<char>>, x: Seq<char>) -> nat
    decreases s.len(),
{
    if s.len() == 0 {
        0
    } else {
        count_below(s.drop_last(), x) + if lex_lt(s.last(), x) {
            1nat
        } else {
            0nat
        }
    }
}

pub proof fn lemma_count_below_bound(s: Seq<Seq<char>>, x: Seq<char>)
    ensures
        count_below(s, x) <= s.len(),
    decreases s.len(),
{
    if s.len() > 0 {
        lemma_count_below_bound(s.drop_last(), x);
    }
}

/// In a sorted sequence, the first member that does not come before `x` stands at
/// `count_below(s, x)`.
pub proof fn lemma_count_below(s: Seq<Seq<char>>, x: Seq<char>, p: int)
    requires
        strictly_sorted(s),
        0 <= p <= s.len(),
        forall|j: int| 0 <= j < p ==> lex_lt(#[trigger] s[j], x),
        p < s.len() ==> !lex_lt(s[p], x),
    ensures
        count_below(s, x) == p,
    decreases s.len(),
{
    if s.len() > 0 {
        let d = s.drop_last();
        if p == s.len() {
            assert(lex_lt(s[s.len() - 1], x));
            lemma_count_below(d, x, p - 1);
        } else {
            if p < s.len() - 1 {
                assert(lex_lt(s[p], s[s.len() - 1]));
                if lex_lt(s.last(), x) {
                    lemma_lex_transitive(s[p], s.last(), x);
                }
            }
            lemma_count_below(d, x, p);
        }
    }
}

/// Inserting `x` where it belongs keeps a sequence sorted.
pub proof fn lemma_sorted_insert(s: Seq<Seq<char>>, x: Seq<char>, p: int)
    requires
        strictly_sorted(s),
        0 <= p <= s.len(),
        forall|j: int| 0 <= j < p ==> lex_lt(#[trigger] s[j], x),
        p < s.len() ==> lex_lt(x, s[p]),
    ensures
        strictly_sorted(s.insert(p, x)),
{
    let t = s.insert(p, x);
    assert forall|i: int, j: int| 0 <= i < j < t.len() implies lex_lt(#[trigger] t[i], #[trigger] t[j]) by {
        if i < p && j == p {
        } else if i == p && j > p {
            if j - 1 > p {
                assert(lex_lt(s[p], s[j - 1]));
                lemma_lex_transitive(x, s[p], s[j - 1]);
            }
        } else if i < p && j > p {
            assert(lex_lt(s[i], s[j - 1]));
        } else if i > p {
            assert(lex_lt(s[i - 1], s[j - 1]));
        } else {
            assert(lex_lt(s[i], s[j]));
        }
    }
}

/// The members of `s` that `keep` also holds, in the order of `s`.
pub open spec fn keep_only(s: Seq<Seq<char>>, keep: Seq<Seq<char>>) -> Seq<Seq<char>>
    decreases s.len(),
{
    if s.len() == 0 {
        s
    } else {
        let r = keep_only(s.drop_last(), keep);
        if keep.contains(s.last()) {
            r.push(s.last())
        } else {
            r
        }
    }
}

pub proof fn lemma_keep_only(s: Seq<Seq<char>>, keep: Seq<Seq<char>>)
    ensures
        forall|x: Seq<char>| #[trigger]
            keep_only(s, keep).contains(x) <==> (s.contains(x) && keep.contains(x)),
        keep_only(s, keep).len() <= s.len(),
        strictly_sorted(s) ==> strictly_sorted(keep_only(s, keep)),
    decreases s.len(),
{
    if s.len() > 0 {
        let d = s.drop_last();
        lemma_keep_only(d, keep);
        let r = keep_only(d, keep);
        assert forall|x: Seq<char>| s.contains(x) <==> (d.contains(x) || x == s.last()) by {
            if s.contains(x) {
                let i = choose|i: int| 0 <= i < s.len() && s[i] == x;
                if i < s.len() - 1 {
                    assert(d[i] == x);
                }
            }
            if d.contains(x) {
                let i = choose|i: int| 0 <= i < d.len() && d[i] == x;
                assert(s[i] == x);
            }
            if x == s.last() {
                assert(s[s.len() - 1] == x);
            }
        }
        if keep.contains(s.last()) {
            let t = r.push(s.last());
            assert forall|x: Seq<char>| t.contains(x) <==> (r.contains(x) || x == s.last()) by {
                if t.contains(x) {
                    let i = choose|i: int| 0 <= i < t.len() && t[i] == x;
                    if i < r.len() {
                        assert(r[i] == x);
                    }
                }
                if r.contains(x) {
                    let i = choose|i: int| 0 <= i < r.len() && r[i] == x;
                    assert(t[i] == x);
                }
                if x == s.last() {
                    assert(t[r.len() as int] == x);
                }
            }
            if strictly_sorted(s) {
                assert forall|i: int| 0 <= i < r.len() implies lex_lt(#[trigger] r[i], s.last()) by {
                    assert(r.contains(r[i]));
                    let k = choose|k: int| 0 <= k < d.len() && d[k] == r[i];
                    assert(lex_lt(s[k], s[s.len() - 1]));
                }
                lemma_sorted_insert(r, s.last(), r.len() as int);
                assert(r.insert(r.len() as int, s.last()) =~= t);
            }
        }
        if strictly_sorted(s) {
            assert(strictly_sorted(d)) by {
                assert forall|i: int, j: int| 0 <= i < j < d.len() implies lex_lt(
                    #[trigger] d[i],
                    #[trigger] d[j],
                ) by {
                    assert(lex_lt(s[i], s[j]));
                }
            }
        }
    }
}

/// The text of a sequence of parts with `sep` between each two.
pub open spec fn joined(parts: Seq<Seq<char>>, sep: Seq<char>) -> Seq<char>
    decreases parts.len(),
{
    if parts.len() == 0 {
        Seq::empty()
    } else if parts.len() == 1 {
        parts[0]
    } else {
        joined(parts.drop_last(), sep) + sep + parts.last()
    }
}

pub open spec fn views_of_strings(s: Seq<String>) -> Seq<Seq<char>> {
    s.map_values(|x: String| x@)
}

/// Relies on itertools' `Itertools::join`: the parts' text with `sep` between each
/// two, and the empty string for no parts.
#[verifier::external_body]
pub fn join_with(parts: &Vec<String>, sep: &str) -> (r: String)
    ensures
        r@ == joined(views_of_strings(parts@), sep@),
{
    parts.iter().join(sep)
}

/// The indentation of one level.
pub const INDENT: &'static str = "  ";

/// `depth` levels of indentation.
pub open spec fn indent_text(depth: nat) -> Seq<char>
    decreases depth,
{
    if depth == 0 {
        Seq::empty()
    } else {
        indent_text((depth - 1) as nat) + INDENT@
    }
}

pub fn indent(depth: usize) -> (r: String)
    ensures
        r@ == indent_text(depth as nat),
{
    let mut r = String::new();
    let mut i: usize = 0;
    while i < depth
        invariant
            i <= depth,
            r@ == indent_text(i as nat),
        decreases depth - i,
    {
        r.append(INDENT);
        i = i + 1;
    }
    r
}

/// A label with each `:` written as `__`.
pub open spec fn colons_doubled(s: Seq<char>) -> Seq<char>
    decreases s.len(),
{
    if s.len() == 0 {
        s
    } else if s.last() == ':' {
        colons_doubled(s.drop_last()) + seq!['_', '_']
    } else {
        colons_doubled(s.drop_last()).push(s.last())
    }
}

/// Relies on `str::replace`: each `:` of `s` replaced by `__`.
#[verifier::external_body]
pub fn double_colons(s: &str) -> (r: String)
    ensures
        r@ == colons_doubled(s@),
{
    s.replace(":", "__")
}

/// What follows the last `:` of a label; the whole label if it holds none.
pub open spec fn after_last_colon(s: Seq<char>) -> Seq<char>
    decreases s.len(),
{
    if s.len() == 0 {
        s
    } else if s.last() == ':' {
        Seq::empty()
    } else {
        after_last_colon(s.drop_last()).push(s.last())
    }
}

/// Relies on `str::rsplit_once`: splits at the last `:`, giving the text before it
/// and the text after it, or nothing where `s` holds no `:`.
#[verifier::external_body]
fn split_at_last_colon(s: &str) -> (r: Option<(String, String)>)
    ensures
        match r {
            Some((before, after)) => s@ == before@ + seq![':'] + after@ && !after@.contains(':'),
            None => !s@.contains(':'),
        },
{
    s.rsplit_once(':').map(|(a, b)| (a.to_string(), b.to_string()))
}

proof fn lemma_after_last_colon_split(a: Seq<char>, b: Seq<char>)
    requires
        !b.contains(':'),
    ensures
        after_last_colon(a + seq![':'] + b) == b,
    decreases b.len(),
{
    let s = a + seq![':'] + b;
    if b.len() == 0 {
        assert(s.last() == ':');
    } else {
        assert(s.last() == b.last());
        assert(b[b.len() - 1] == b.last());
        assert(s.drop_last() =~= a + seq![':'] + b.drop_last());
        assert forall|i: int| 0 <= i < b.drop_last().len() implies b.drop_last()[i] != ':' by {
            assert(b.drop_last()[i] == b[i]);
        }
        lemma_after_last_colon_split(a, b.drop_last());
        assert(b.drop_last().push(b.last()) =~= b);
    }
}

proof fn lemma_after_last_colon_none(s: Seq<char>)
    requires
        !s.contains(':'),
    ensures
        after_last_colon(s) == s,
    decreases s.len(),
{
    if s.len() > 0 {
        assert(s[s.len() - 1] == s.last());
        assert forall|i: int| 0 <= i < s.drop_last().len() implies s.drop_last()[i] != ':' by {
            assert(s.drop_last()[i] == s[i]);
        }
        lemma_after_last_colon_none(s.drop_last());
        assert(s.drop_last().push(s.last()) =~= s);
    }
}

/// The part of a scoped label after its scope: `parenthood:parent` gives `parent`.
pub fn unscoped(label: &str) -> (r: String)
    ensures
        r@ == after_last_colon(label@),
{
    match split_at_last_colon(label) {
        Some((before, after)) => {
            proof {
                lemma_after_last_colon_split(before@, after@);
            }
            after
        },
        None => {
            proof {
                lemma_after_last_colon_none(label@);
            }
            label.to_owned()
        },
    }
}

/// The decimal digits of `n`.
pub open spec fn decimal(n: nat) -> Seq<char>
    decreases n,
{
    if n < 10 {
        seq![(('0' as u32) + n) as char]
    } else {
        decimal(n / 10).push((('0' as u32) + (n % 10)) as char)
    }
}

/// Relies on `usize`'s `ToString`: the decimal digits of `n`.
#[verifier::external_body]
pub(crate) fn decimal_text(n: usize) -> (r: String)
    ensures
        r@ == decimal(n as nat),
{
    n.to_string()
}

} // verus!
