//! Lexicographic order on character sequences.
//!
//! Answer lists and field names are kept sorted by this order: code-point
//! comparison character by character, shorter prefixes first.
use vstd::prelude::*;
use vstd::relations::{sorted_by, total_ordering};
use vstd::seq_lib::{group_to_multiset_ensures, lemma_multiset_commutative, lemma_sorted_unique};
use vstd::multiset::Multiset;

verus! {

/// Strict lexicographic order: `a` comes before `b`.
pub open spec fn lex_lt(a: Seq<char>, b: Seq<char>) -> bool
    decreases a.len(),
{
    if b.len() == 0 {
        false
    } else if a.len() == 0 {
        true
    } else if a[0] == b[0] {
        lex_lt(a.drop_first(), b.drop_first())
    } else {
        a[0] < b[0]
    }
}

/// Lexicographic order, non-strict.
pub open spec fn lex_leq(a: Seq<char>, b: Seq<char>) -> bool {
    lex_lt(a, b) || a == b
}

/// The non-strict order as a first-class relation, for use with `sort_by`.
pub open spec fn lex_leq_f() -> spec_fn(Seq<char>, Seq<char>) -> bool {
    |a: Seq<char>, b: Seq<char>| lex_leq(a, b)
}

/// Two distinct sequences are ordered one way or the other.
pub proof fn lemma_lex_lt_connected(a: Seq<char>, b: Seq<char>)
    ensures
        a != b ==> lex_lt(a, b) || lex_lt(b, a),
    decreases a.len(),
{
    if a.len() == 0 && b.len() == 0 {
        assert(a =~= b);
    } else if a.len() == 0 || b.len() == 0 {
    } else if a[0] == b[0] {
        lemma_lex_lt_connected(a.drop_first(), b.drop_first());
        if a.drop_first() == b.drop_first() {
            assert(a.drop_first().len() == a.len() - 1);
            assert(b.drop_first().len() == b.len() - 1);
            assert forall|k: int| 0 <= k < a.len() implies a[k] == b[k] by {
                if k > 0 {
                    assert(a[k] == a.drop_first()[k - 1]);
                    assert(b[k] == b.drop_first()[k - 1]);
                }
            }
            assert(a =~= b);
        }
    }
}

/// The strict order is asymmetric and irreflexive.
pub proof fn lemma_lex_lt_asymmetric(a: Seq<char>, b: Seq<char>)
    ensures
        !(lex_lt(a, b) && lex_lt(b, a)),
        lex_lt(a, b) ==> a != b,
    decreases a.len(),
{
    if a.len() == 0 || b.len() == 0 {
    } else if a[0] == b[0] {
        lemma_lex_lt_asymmetric(a.drop_first(), b.drop_first());
    }
}

/// The strict order is transitive.
pub proof fn lemma_lex_lt_transitive(a: Seq<char>, b: Seq<char>, c: Seq<char>)
    requires
        lex_lt(a, b),
        lex_lt(b, c),
    ensures
        lex_lt(a, c),
    decreases a.len(),
{
    if c.len() == 0 || a.len() == 0 {
    } else if b.len() == 0 {
    } else if a[0] == b[0] && b[0] == c[0] {
        lemma_lex_lt_transitive(a.drop_first(), b.drop_first(), c.drop_first());
    }
}

/// The non-strict lexicographic order is a total ordering.
pub proof fn lemma_lex_total_ordering()
    ensures
        total_ordering(lex_leq_f()),
{
    let leq = lex_leq_f();
    assert forall|x: Seq<char>, y: Seq<char>| #[trigger] leq(x, y) && #[trigger] leq(y, x)
        implies x == y by {
        lemma_lex_lt_asymmetric(x, y);
    }
    assert forall|x: Seq<char>, y: Seq<char>, z: Seq<char>|
        #[trigger] leq(x, y) && #[trigger] leq(y, z) implies leq(x, z) by {
        if x != y && y != z {
            lemma_lex_lt_transitive(x, y, z);
        }
    }
    assert forall|x: Seq<char>, y: Seq<char>| !(#[trigger] leq(x, y)) implies leq(y, x) by {
        lemma_lex_lt_connected(x, y);
    }
    assert(vstd::relations::reflexive(leq));
    assert(vstd::relations::antisymmetric(leq));
    assert(vstd::relations::transitive(leq));
    assert(vstd::relations::strongly_connected(leq));
}

/// Whether `a` comes strictly before `b` lexicographically.
pub fn str_lt(a: &str, b: &str) -> (r: bool)
    ensures
        r == lex_lt(a@, b@),
{
    let alen: usize = a.unicode_len();
    let blen: usize = b.unicode_len();
    let mut i: usize = 0;
    proof {
        assert(a@.skip(0) =~= a@);
        assert(b@.skip(0) =~= b@);
    }
    while i < alen && i < blen
        invariant
            i <= alen,
            i <= blen,
            alen == a@.len(),
            blen == b@.len(),
            lex_lt(a@, b@) == lex_lt(a@.skip(i as int), b@.skip(i as int)),
        decreases alen - i,
    {
        let ca = a.get_char(i);
        let cb = b.get_char(i);
        proof {
            assert(a@.skip(i as int)[0] == a@[i as int]);
            assert(b@.skip(i as int)[0] == b@[i as int]);
        }
        if ca != cb {
            return ca < cb;
        }
        proof {
            assert(a@.skip(i as int).drop_first() =~= a@.skip(i as int + 1));
            assert(b@.skip(i as int).drop_first() =~= b@.skip(i as int + 1));
        }
        i = i + 1;
    }
    proof {
        if i == alen {
            assert(a@.skip(i as int) =~= Seq::<char>::empty());
        } else {
            assert(b@.skip(i as int) =~= Seq::<char>::empty());
        }
    }
    alen < blen
}

/// Whether `a` comes before `b` or equals it.
pub fn str_le(a: &str, b: &str) -> (r: bool)
    ensures
        r == lex_leq(a@, b@),
{
    let r = str_lt(b, a);
    proof {
        lemma_lex_lt_connected(a@, b@);
        lemma_lex_lt_asymmetric(a@, b@);
    }
    !r
}

/// Whether the two strings hold the same characters.
pub fn str_eq(a: &str, b: &str) -> (r: bool)
    ensures
        r == (a@ == b@),
{
    let lt = str_lt(a, b);
    let gt = str_lt(b, a);
    proof {
        lemma_lex_lt_connected(a@, b@);
        lemma_lex_lt_asymmetric(a@, b@);
        lemma_lex_lt_asymmetric(b@, a@);
    }
    !lt && !gt
}

/// The canonical sorted arrangement of a list of answers.
pub open spec fn sort_answers(s: Seq<Seq<char>>) -> Seq<Seq<char>> {
    s.sort_by(lex_leq_f())
}

/// Whether a list of answers is in lexicographic order.
pub open spec fn sorted_answers(s: Seq<Seq<char>>) -> bool {
    forall|p: int, q: int| 0 <= p < q < s.len() ==> lex_leq(#[trigger] s[p], #[trigger] s[q])
}

/// The plain sortedness predicate agrees with `sorted_by` under the
/// lexicographic relation.
pub proof fn lemma_sorted_answers_sorted_by(s: Seq<Seq<char>>)
    ensures
        sorted_answers(s) <==> sorted_by(s, lex_leq_f()),
{
    let leq = lex_leq_f();
    if sorted_answers(s) {
        assert forall|i: int, j: int| 0 <= i < j < s.len() implies #[trigger] leq(s[i], s[j]) by {
            assert(lex_leq(s[i], s[j]));
        }
        assert(sorted_by(s, leq));
    }
    if sorted_by(s, leq) {
        assert forall|p: int, q: int| 0 <= p < q < s.len() implies lex_leq(
            #[trigger] s[p],
            #[trigger] s[q],
        ) by {
            assert(leq(s[p], s[q]));
        }
    }
}

/// Inserting an element anywhere in a sequence adds it to the multiset of
/// elements.
proof fn lemma_to_multiset_insert(s: Seq<Seq<char>>, j: int, x: Seq<char>)
    requires
        0 <= j <= s.len(),
    ensures
        s.insert(j, x).to_multiset() == s.to_multiset().insert(x),
{
    broadcast use group_to_multiset_ensures;
    broadcast use vstd::multiset::group_multiset_axioms;

    assert(s.insert(j, x) =~= s.take(j) + (seq![x] + s.skip(j)));
    lemma_multiset_commutative(s.take(j), seq![x] + s.skip(j));
    lemma_multiset_commutative(seq![x], s.skip(j));
    assert(s =~= s.take(j) + s.skip(j));
    lemma_multiset_commutative(s.take(j), s.skip(j));
    assert(seq![x] =~= Seq::<Seq<char>>::empty().push(x));
    assert(Seq::<Seq<char>>::empty().to_multiset().len() == 0);
    assert(Seq::<Seq<char>>::empty().to_multiset() =~= Multiset::<Seq<char>>::empty());
    assert(s.insert(j, x).to_multiset() =~= s.to_multiset().insert(x));
}

/// Sorts a list of strings lexicographically, by insertion into a sorted
/// prefix.
pub fn sort_strings(v: Vec<String>) -> (r: Vec<String>)
    ensures
        r.deep_view() == sort_answers(v.deep_view()),
{
    proof {
        lemma_lex_total_ordering();
        v.deep_view().lemma_sort_by_ensures(lex_leq_f());
        broadcast use group_to_multiset_ensures;

        assert(v.deep_view().take(0) =~= Seq::<Seq<char>>::empty());
    }
    let mut r: Vec<String> = Vec::new();
    proof {
        assert(r.deep_view() =~= Seq::<Seq<char>>::empty());
    }
    let mut i: usize = 0;
    while i < v.len()
        invariant
            i <= v.len(),
            sorted_answers(r.deep_view()),
            r.deep_view().to_multiset() == v.deep_view().take(i as int).to_multiset(),
        decreases v.len() - i,
    {
        let s: String = v[i].clone();
        let mut j: usize = 0;
        while j < r.len() && str_le(r[j].as_str(), s.as_str())
            invariant
                j <= r.len(),
                s == v@[i as int],
                i < v.len(),
                forall|t: int| 0 <= t < j ==> lex_leq(#[trigger] r.deep_view()[t], s@),
            decreases r.len() - j,
        {
            assert(r.deep_view()[j as int] == r@[j as int]@);
            j = j + 1;
        }
        let ghost old_rd = r.deep_view();
        let ghost jj = j as int;
        proof {
            if jj < old_rd.len() {
                assert(old_rd[jj] == r@[jj]@);
                lemma_lex_lt_connected(s@, old_rd[jj]);
                assert(lex_lt(s@, old_rd[jj]));
            }
            lemma_to_multiset_insert(old_rd, jj, s@);
            old_rd.insert_ensures(jj, s@);
        }
        r.insert(j, s);
        proof {
            let rd = r.deep_view();
            assert(rd =~= old_rd.insert(jj, s@));
            assert forall|p: int, q: int| 0 <= p < q < rd.len() implies lex_leq(
                #[trigger] rd[p],
                #[trigger] rd[q],
            ) by {
                if q < jj {
                    assert(lex_leq(old_rd[p], old_rd[q]));
                } else if q == jj {
                    assert(rd[q] == s@);
                    assert(lex_leq(old_rd[p], s@));
                } else if p < jj {
                    if p == q - 1 {
                    } else {
                        assert(lex_leq(old_rd[p], old_rd[q - 1]));
                    }
                    if q - 1 == jj {
                        assert(lex_leq(old_rd[p], s@));
                        lemma_lex_lt_transitive_leq(old_rd[p], s@, old_rd[jj]);
                    }
                } else if p == jj {
                    assert(lex_lt(s@, old_rd[jj]));
                    if jj < q - 1 {
                        assert(lex_leq(old_rd[jj], old_rd[q - 1]));
                        lemma_lex_lt_transitive_leq(s@, old_rd[jj], old_rd[q - 1]);
                    }
                } else {
                    assert(lex_leq(old_rd[p - 1], old_rd[q - 1]));
                }
            }
            assert(s@ == v.deep_view()[i as int]);
            assert(v.deep_view().take(i as int).push(v.deep_view()[i as int]) =~= v.deep_view()
                .take(i as int + 1));
            broadcast use group_to_multiset_ensures;
        }
        i = i + 1;
    }
    proof {
        assert(v.deep_view().take(v.deep_view().len() as int) =~= v.deep_view());
        lemma_sorted_answers_sorted_by(r.deep_view());
        lemma_sorted_unique(r.deep_view(), sort_answers(v.deep_view()), lex_leq_f());
        assert(r.deep_view() =~= sort_answers(v.deep_view()));
    }
    r
}

/// A strict step followed by a non-strict one stays strictly below, so in
/// particular non-strictly.
proof fn lemma_lex_lt_transitive_leq(a: Seq<char>, b: Seq<char>, c: Seq<char>)
    requires
        lex_leq(a, b) || lex_lt(a, b),
        lex_leq(b, c) || lex_lt(b, c),
    ensures
        lex_leq(a, c),
{
    if a != b && b != c {
        lemma_lex_lt_transitive(a, b, c);
    }
}

} // verus!
