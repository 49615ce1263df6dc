//! Top-k most frequent words in a collection of text lines.
//!
//! Words (tokens) are maximal runs of ASCII letters and digits; letters are
//! folded to lower case. The library counts how often each token occurs and
//! returns the `k` most frequent, ordered by descending count with ties
//! broken alphabetically.

mod count;
mod order;
mod select;
mod tokens;

pub use count::{count_tokens, counts_match, has_key, keys_distinct, lemma_table_covers};
pub use order::{
    entry_lt, entry_lt_exec, lemma_entry_lt_asymmetric, lemma_entry_lt_total,
    lemma_entry_lt_transitive, lemma_lex_lt_asymmetric, lemma_lex_lt_total,
    lemma_lex_lt_transitive, lex_lt, str_lex_lt,
};
pub use select::{
    distinct_tokens, entry_view, entry_views, from_among, has_token, select_top_k, sorted_strict,
};
pub use tokens::{
    flush, fold_char, fold_word_char, is_token, is_token_char, is_word_char,
    lemma_fold_char_is_token_char, lemma_tokens_from_are_tokens, lemma_tokens_of_line_len,
    lemma_tokens_of_lines_are_tokens, lemma_tokens_of_lines_len, lemma_tokens_of_lines_prefix_len,
    lemma_tokens_of_lines_take_succ, tokens_from, tokens_of_line, tokens_of_lines, total_chars,
    views_of,
};

use vstd::prelude::*;

verus! {

/// What it means for `vs` to be a correct top-`k` listing of the tokens
/// `toks`: it holds exactly `min(k, distinct)` entries; every entry names a
/// token that occurs, with its exact number of occurrences; no token is
/// listed twice; entries strictly descend in the display order (higher count
/// first, ties broken by the alphabetically earlier token); and every
/// occurring token that is not listed would rank after every listed entry.
pub open spec fn valid_topk(toks: Seq<Seq<char>>, k: int, vs: Seq<(Seq<char>, int)>) -> bool {
    &&& vs.len() == vstd::math::min(k, toks.to_set().len() as int)
    &&& (forall|i: int| 0 <= i < vs.len() ==> toks.contains((#[trigger] vs[i]).0))
    &&& (forall|i: int|
        0 <= i < vs.len() ==> (#[trigger] vs[i]).1 == toks.to_multiset().count(vs[i].0))
    &&& distinct_tokens(vs)
    &&& sorted_strict(vs)
    &&& (forall|i: int, t: Seq<char>|
        #![trigger vs[i], toks.to_multiset().count(t)]
        0 <= i < vs.len() && toks.contains(t) && !has_token(vs, t) ==> entry_lt(
            vs[i],
            (t, toks.to_multiset().count(t) as int),
        ))
}

/// Two correct top-k listings of the same tokens agree at any position they
/// both fill, provided they already agree on everything before it.
proof fn lemma_topk_agree(
    toks: Seq<Seq<char>>,
    k1: int,
    k2: int,
    vs1: Seq<(Seq<char>, int)>,
    vs2: Seq<(Seq<char>, int)>,
    i: int,
)
    requires
        valid_topk(toks, k1, vs1),
        valid_topk(toks, k2, vs2),
        0 <= i < vs1.len(),
        i < vs2.len(),
        vs1.subrange(0, i) == vs2.subrange(0, i),
    ensures
        vs1[i] == vs2[i],
{
    let m = toks.to_multiset();
    assert forall|p: int| 0 <= p < i implies vs1[p] == vs2[p] by {
        assert(vs1.subrange(0, i)[p] == vs1[p]);
        assert(vs2.subrange(0, i)[p] == vs2[p]);
    }
    if vs1[i].0 != vs2[i].0 {
        let t2 = vs2[i].0;
        assert(vs2[i].1 == m.count(t2));
        if has_token(vs1, t2) {
            let p = choose|p: int| 0 <= p < vs1.len() && (#[trigger] vs1[p]).0 == t2;
            if p < i {
                assert(vs2[p].0 == t2);
            } else {
                assert(p > i);
                assert(entry_lt(vs1[i], vs1[p]));
                assert(vs1[p].1 == m.count(t2));
                assert(vs1[p] == vs2[i]);
            }
        } else {
            assert(entry_lt(vs1[i], (t2, m.count(t2) as int)));
            assert((t2, m.count(t2) as int) == vs2[i]);
        }
        assert(entry_lt(vs1[i], vs2[i]));
        let t1 = vs1[i].0;
        assert(vs1[i].1 == m.count(t1));
        if has_token(vs2, t1) {
            let p = choose|p: int| 0 <= p < vs2.len() && (#[trigger] vs2[p]).0 == t1;
            if p < i {
                assert(vs1[p].0 == t1);
            } else {
                assert(p > i);
                assert(entry_lt(vs2[i], vs2[p]));
                assert(vs2[p].1 == m.count(t1));
                assert(vs2[p] == vs1[i]);
            }
        } else {
            assert(entry_lt(vs2[i], (t1, m.count(t1) as int)));
            assert((t1, m.count(t1) as int) == vs1[i]);
        }
        assert(entry_lt(vs2[i], vs1[i]));
        lemma_entry_lt_asymmetric(vs1[i], vs2[i]);
        assert(false);
    }
    assert(vs1[i].1 == m.count(vs1[i].0));
    assert(vs2[i].1 == m.count(vs1[i].0));
}

/// Walks the shared positions front to back, extending the agreement one
/// entry at a time.
proof fn lemma_topk_prefix_rec(
    toks: Seq<Seq<char>>,
    k1: int,
    k2: int,
    vs1: Seq<(Seq<char>, int)>,
    vs2: Seq<(Seq<char>, int)>,
    i: int,
)
    requires
        valid_topk(toks, k1, vs1),
        valid_topk(toks, k2, vs2),
        vs1.len() <= vs2.len(),
        0 <= i <= vs1.len(),
        vs1.subrange(0, i) == vs2.subrange(0, i),
    ensures
        vs1 == vs2.subrange(0, vs1.len() as int),
    decreases vs1.len() - i,
{
    if i == vs1.len() {
        assert(vs1 =~= vs2.subrange(0, vs1.len() as int)) by {
            assert(vs1.subrange(0, i) =~= vs1);
        }
    } else {
        lemma_topk_agree(toks, k1, k2, vs1, vs2, i);
        assert(vs1.subrange(0, i + 1) =~= vs2.subrange(0, i + 1)) by {
            assert forall|p: int| #![trigger vs1[p], vs2[p]] 0 <= p < i + 1 implies vs1.subrange(
                0,
                i + 1,
            )[p] == vs2.subrange(0, i + 1)[p] by {
                if p < i {
                    assert(vs1.subrange(0, i)[p] == vs1[p]);
                    assert(vs2.subrange(0, i)[p] == vs2[p]);
                }
            }
        }
        lemma_topk_prefix_rec(toks, k1, k2, vs1, vs2, i + 1);
    }
}

/// Asking for more entries never removes or reorders the ones already
/// listed: a correct top-`k1` listing is exactly the first part of a correct
/// top-`k2` listing whenever `k1 <= k2`.
pub proof fn lemma_topk_prefix_stability(
    toks: Seq<Seq<char>>,
    k1: int,
    k2: int,
    vs1: Seq<(Seq<char>, int)>,
    vs2: Seq<(Seq<char>, int)>,
)
    requires
        0 <= k1 <= k2,
        valid_topk(toks, k1, vs1),
        valid_topk(toks, k2, vs2),
    ensures
        vs1 == vs2.subrange(0, vs1.len() as int),
{
    assert(vs1.subrange(0, 0) =~= vs2.subrange(0, 0));
    lemma_topk_prefix_rec(toks, k1, k2, vs1, vs2, 0);
}

/// Two correct top-`k` listings of the same tokens are the same listing.
pub proof fn lemma_topk_unique(
    toks: Seq<Seq<char>>,
    k: int,
    vs1: Seq<(Seq<char>, int)>,
    vs2: Seq<(Seq<char>, int)>,
)
    requires
        0 <= k,
        valid_topk(toks, k, vs1),
        valid_topk(toks, k, vs2),
    ensures
        vs1 == vs2,
{
    lemma_topk_prefix_stability(toks, k, k, vs1, vs2);
    assert(vs2.subrange(0, vs2.len() as int) =~= vs2);
}

/// Returns the `k` most frequent words of `lines`: a word is a maximal run
/// of ASCII letters and digits, folded to lower case, and the result is
/// ordered by descending count, ties broken alphabetically. If fewer than
/// `k` distinct words occur, all of them are returned; `k == 0` yields an
/// empty result.
///
/// The bound on the total number of word occurrences keeps every count
/// representable in a `usize`.
pub fn top_k_words(lines: &[String], k: usize) -> (r: Vec<(String, usize)>)
    requires
        tokens_of_lines(views_of(lines@)).len() <= usize::MAX,
    ensures
        valid_topk(tokens_of_lines(views_of(lines@)), k as int, entry_views(r@)),
        forall|i: int| 0 <= i < r@.len() ==> is_token((#[trigger] entry_views(r@)[i]).0),
{
    broadcast use vstd::seq_lib::group_to_multiset_ensures;

    let ghost toks = tokens_of_lines(views_of(lines@));
    let counts = count_tokens(lines);
    let ghost es = counts@;
    let ghost vs0 = entry_views(counts@);
    proof {
        assert forall|i: int, j: int|
            0 <= i < j < vs0.len() implies (#[trigger] vs0[i]).0 != (#[trigger] vs0[j]).0 by {
            assert(vs0[i] == entry_view(es[i]) && vs0[j] == entry_view(es[j]));
        }
    }
    let r = select_top_k(counts, k);
    proof {
        let vs = entry_views(r@);
        let m = toks.to_multiset();
        lemma_table_covers(es, toks);
        assert forall|i: int| 0 <= i < vs.len() implies toks.contains((#[trigger] vs[i]).0)
            && vs[i].1 == m.count(vs[i].0) && is_token(vs[i].0) by {
            assert(vs0.contains(vs[i]));
            let j = choose|j: int| 0 <= j < vs0.len() && vs0[j] == vs[i];
            assert(vs0[j] == entry_view(es[j]));
            assert(es[j].1 == m.count(es[j].0@) && es[j].1 >= 1);
            assert(toks.contains(vs[i].0));
            lemma_tokens_of_lines_are_tokens(views_of(lines@));
            let w = choose|w: int| 0 <= w < toks.len() && toks[w] == vs[i].0;
            assert(is_token(toks[w]));
        }
        assert forall|i: int, t: Seq<char>|
            #![trigger vs[i], m.count(t)]
            0 <= i < vs.len() && toks.contains(t) && !has_token(vs, t) implies entry_lt(
            vs[i],
            (t, m.count(t) as int),
        ) by {
            assert(m.count(t) > 0);
            assert(has_key(es, t));
            let j = choose|j: int| 0 <= j < es.len() && (#[trigger] es[j]).0@ == t;
            assert(vs0[j] == entry_view(es[j]));
            assert(vs0[j].0 == t);
            assert(vs0[j].1 == m.count(t) as int);
            assert(entry_lt(vs[i], vs0[j]));
        }
    }
    r
}

} // verus!
