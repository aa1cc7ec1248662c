//! Raw field text: splitting it into individual answers on the `'#'`
//! separator, and the normal form in which two answers are compared.
use vstd::prelude::*;
use crate::order::{
    lemma_lex_total_ordering, lemma_sorted_answers_sorted_by, lex_leq_f, sort_answers,
    sorted_answers,
};
use vstd::seq_lib::lemma_sorted_unique;

verus! {

/// Splits `s` on `'#'` and drops empty fragments; `cur` holds the fragment
/// read so far.
pub open spec fn split_acc(s: Seq<char>, cur: Seq<char>) -> Seq<Seq<char>>
    decreases s.len(),
{
    if s.len() == 0 {
        if cur.len() == 0 {
            Seq::empty()
        } else {
            seq![cur]
        }
    } else if s[0] == '#' {
        (if cur.len() == 0 {
            Seq::empty()
        } else {
            seq![cur]
        }) + split_acc(s.drop_first(), Seq::empty())
    } else {
        split_acc(s.drop_first(), cur.push(s[0]))
    }
}

/// The fragments of `s` between `'#'` separators, empty fragments dropped.
pub open spec fn split_hash(s: Seq<char>) -> Seq<Seq<char>> {
    split_acc(s, Seq::empty())
}

/// The fragments joined back together with `'#'` between them.
pub open spec fn join_hash(xs: Seq<Seq<char>>) -> Seq<char>
    decreases xs.len(),
{
    if xs.len() == 0 {
        Seq::empty()
    } else if xs.len() == 1 {
        xs[0]
    } else {
        xs[0] + seq!['#'] + join_hash(xs.drop_first())
    }
}

/// Splits raw field text on `'#'`, dropping empty fragments.
pub fn split_answers(s: &str) -> (r: Vec<String>)
    ensures
        r.deep_view() == split_hash(s@),
{
    let n: usize = s.unicode_len();
    let mut pieces: Vec<String> = Vec::new();
    let mut start: usize = 0;
    let mut i: usize = 0;
    proof {
        assert(pieces.deep_view() =~= Seq::<Seq<char>>::empty());
        assert(s@.skip(0) =~= s@);
        assert(s@.subrange(0, 0) =~= Seq::<char>::empty());
    }
    while i < n
        invariant
            start <= i <= n,
            n == s@.len(),
            pieces.deep_view() + split_acc(s@.skip(i as int), s@.subrange(start as int, i as int))
                == split_hash(s@),
        decreases n - i,
    {
        let c = s.get_char(i);
        proof {
            assert(s@.skip(i as int)[0] == s@[i as int]);
            assert(s@.skip(i as int).drop_first() =~= s@.skip(i as int + 1));
        }
        let ghost cur = s@.subrange(start as int, i as int);
        let ghost pre = pieces.deep_view();
        if c == '#' {
            let ghost rest = split_acc(s@.skip(i as int + 1), Seq::<char>::empty());
            if i > start {
                let piece = s.substring_char(start, i);
                pieces.push(piece.to_owned());
                proof {
                    assert(pieces.deep_view() =~= pre.push(cur));
                    assert(pre.push(cur) =~= pre + seq![cur]);
                    assert((pre + seq![cur]) + rest =~= pre + (seq![cur] + rest));
                }
            } else {
                proof {
                    assert(cur =~= Seq::<char>::empty());
                    assert(Seq::<Seq<char>>::empty() + rest =~= rest);
                }
            }
            start = i + 1;
            proof {
                assert(s@.subrange(start as int, start as int) =~= Seq::<char>::empty());
            }
        } else {
            proof {
                assert(cur.push(s@[i as int]) =~= s@.subrange(start as int, i as int + 1));
            }
        }
        i = i + 1;
    }
    proof {
        assert(s@.skip(n as int) =~= Seq::<char>::empty());
    }
    let ghost cur = s@.subrange(start as int, n as int);
    let ghost pre = pieces.deep_view();
    if n > start {
        let piece = s.substring_char(start, n);
        pieces.push(piece.to_owned());
        proof {
            assert(pieces.deep_view() =~= pre.push(cur));
            assert(pre.push(cur) =~= pre + seq![cur]);
        }
    } else {
        proof {
            assert(cur =~= Seq::<char>::empty());
            assert(pre + Seq::<Seq<char>>::empty() =~= pre);
        }
    }
    pieces
}

/// What `str::to_lowercase` returns for given characters.
pub uninterp spec fn lower_of(s: Seq<char>) -> Seq<char>;

/// What `str::trim` returns for given characters.
pub uninterp spec fn trim_of(s: Seq<char>) -> Seq<char>;

/// The normal form in which two answers are compared: lower-cased, then
/// stripped of surrounding whitespace.
pub open spec fn canon(s: Seq<char>) -> Seq<char> {
    trim_of(lower_of(s))
}

/// Relies on `str::to_lowercase`: the Unicode lowercase mapping of the
/// characters, a function of the characters alone.
#[verifier::external_body]
fn lowercase(s: &str) -> (r: String)
    ensures
        r@ == lower_of(s@),
{
    s.to_lowercase()
}

/// Relies on `str::trim`: the characters with leading and trailing
/// whitespace removed, a function of the characters alone.
#[verifier::external_body]
fn trim_ws(s: &str) -> (r: &str)
    ensures
        r@ == trim_of(s@),
{
    s.trim()
}

/// The comparison form of one answer string.
pub fn canon_string(s: &str) -> (r: String)
    ensures
        r@ == canon(s@),
{
    let low = lowercase(s);
    let t = trim_ws(low.as_str());
    t.to_owned()
}

/// Prepending a separator-free fragment folds it into the fragment being
/// read.
proof fn lemma_split_acc_piece(p: Seq<char>, s: Seq<char>, cur: Seq<char>)
    requires
        forall|k: int| 0 <= k < p.len() ==> p[k] != '#',
    ensures
        split_acc(p + s, cur) == split_acc(s, cur + p),
    decreases p.len(),
{
    if p.len() == 0 {
        assert(p + s =~= s);
        assert(cur + p =~= cur);
    } else {
        assert((p + s)[0] == p[0]);
        assert((p + s).len() > 0);
        assert((p + s).drop_first() =~= p.drop_first() + s);
        assert(cur.push(p[0]) + p.drop_first() =~= cur + p);
        assert forall|k: int| 0 <= k < p.drop_first().len() implies p.drop_first()[k] != '#' by {
            assert(p.drop_first()[k] == p[k + 1]);
        }
        lemma_split_acc_piece(p.drop_first(), s, cur.push(p[0]));
    }
}

/// Splitting the joined text of nonempty, separator-free answers gives the
/// answers back.
pub proof fn lemma_split_join(xs: Seq<Seq<char>>)
    requires
        forall|i: int| 0 <= i < xs.len() ==> (#[trigger] xs[i]).len() > 0,
        forall|i: int, k: int|
            0 <= i < xs.len() && 0 <= k < xs[i].len() ==> #[trigger] xs[i][k] != '#',
    ensures
        split_hash(join_hash(xs)) == xs,
    decreases xs.len(),
{
    if xs.len() == 0 {
        assert(split_hash(join_hash(xs)) =~= xs);
    } else if xs.len() == 1 {
        assert(xs[0] + Seq::<char>::empty() =~= xs[0]);
        lemma_split_acc_piece(xs[0], Seq::empty(), Seq::empty());
        assert(Seq::<char>::empty() + xs[0] =~= xs[0]);
        assert(seq![xs[0]] =~= xs);
    } else {
        let rest = xs.drop_first();
        let tail = seq!['#'] + join_hash(rest);
        assert(join_hash(xs) =~= xs[0] + tail);
        lemma_split_acc_piece(xs[0], tail, Seq::empty());
        assert(Seq::<char>::empty() + xs[0] =~= xs[0]);
        assert(tail[0] == '#');
        assert(tail.drop_first() =~= join_hash(rest));
        assert forall|i: int| 0 <= i < rest.len() implies (#[trigger] rest[i]).len() > 0 by {
            assert(rest[i] == xs[i + 1]);
        }
        assert forall|i: int, k: int|
            0 <= i < rest.len() && 0 <= k < rest[i].len() implies #[trigger] rest[i][k]
            != '#' by {
            assert(rest[i] == xs[i + 1]);
        }
        lemma_split_join(rest);
        assert(seq![xs[0]] + rest =~= xs);
    }
}

/// Law: normalization is idempotent. Splitting the joined text of an already
/// normalized answer list — sorted, every answer nonempty and free of the
/// separator — and sorting the fragments reproduces the list unchanged.
pub proof fn lemma_normalize_idempotent(xs: Seq<Seq<char>>)
    requires
        sorted_answers(xs),
        forall|i: int| 0 <= i < xs.len() ==> (#[trigger] xs[i]).len() > 0,
        forall|i: int, k: int|
            0 <= i < xs.len() && 0 <= k < xs[i].len() ==> #[trigger] xs[i][k] != '#',
    ensures
        sort_answers(split_hash(join_hash(xs))) == xs,
{
    lemma_split_join(xs);
    lemma_lex_total_ordering();
    xs.lemma_sort_by_ensures(lex_leq_f());
    lemma_sorted_answers_sorted_by(xs);
    lemma_sorted_unique(sort_answers(xs), xs, lex_leq_f());
}

} // verus!
