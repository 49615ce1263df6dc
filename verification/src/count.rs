//! Building the frequency table: one entry per distinct token, holding how
//! often that token occurs across all input lines.

use vstd::prelude::*;
use vstd::multiset::Multiset;
use crate::tokens::{
    flush, fold_word_char, is_token_char, lemma_tokens_of_lines_prefix_len,
    lemma_tokens_of_lines_take_succ, tokens_from, tokens_of_line, tokens_of_lines, views_of,
};

verus! {

broadcast use vstd::multiset::group_multiset_axioms, vstd::multiset::group_multiset_properties;

/// No two entries of the table name the same token.
pub open spec fn keys_distinct(es: Seq<(String, usize)>) -> bool {
    forall|i: int, j: int|
        0 <= i < j < es.len() ==> (#[trigger] es[i]).0@ != (#[trigger] es[j]).0@
}

/// Some entry of the table names token `t`.
pub open spec fn has_key(es: Seq<(String, usize)>, t: Seq<char>) -> bool {
    exists|i: int| 0 <= i < es.len() && (#[trigger] es[i]).0@ == t
}

/// The table agrees with the multiset `m` of token occurrences: each entry
/// holds the exact number of occurrences of its token, and every token that
/// occurs has an entry.
pub open spec fn counts_match(es: Seq<(String, usize)>, m: Multiset<Seq<char>>) -> bool {
    &&& forall|i: int| 0 <= i < es.len() ==> (#[trigger] es[i]).1 == m.count(es[i].0@)
    &&& forall|i: int| 0 <= i < es.len() ==> (#[trigger] es[i]).1 >= 1
    &&& forall|t: Seq<char>| m.count(t) > 0 ==> has_key(es, t)
}

/// Relies on String::push: appends the given character to the end of the
/// string.
#[verifier::external_body]
fn push_char(s: &mut String, c: char)
    ensures
        final(s)@ == old(s)@.push(c),
{
    s.push(c);
}

/// Records one more occurrence of the token held by `w`: the entry for it is
/// incremented, or created with count 1 if the token is new.
fn bump(counts: &mut Vec<(String, usize)>, w: String, Ghost(m): Ghost<Multiset<Seq<char>>>)
    requires
        keys_distinct(old(counts)@),
        counts_match(old(counts)@, m),
        m.count(w@) < usize::MAX,
    ensures
        keys_distinct(final(counts)@),
        counts_match(final(counts)@, m.insert(w@)),
        final(counts)@.len() == if has_key(old(counts)@, w@) {
            old(counts)@.len() as int
        } else {
            old(counts)@.len() + 1 as int
        },
        forall|t: Seq<char>| has_key(final(counts)@, t) <==> has_key(old(counts)@, t) || t == w@,
{
    let ghost es0 = counts@;
    let mut i: usize = 0;
    while i < counts.len()
        invariant
            i <= counts.len(),
            counts@ == es0,
            es0 == old(counts)@,
            keys_distinct(es0),
            counts_match(es0, m),
            m.count(w@) < usize::MAX,
            forall|j: int| 0 <= j < i ==> (#[trigger] es0[j]).0@ != w@,
        decreases counts.len() - i,
    {
        if counts[i].0 == w {
            let c = counts[i].1;
            counts[i] = (w, c + 1);
            proof {
                assert(counts@ == es0.update(i as int, (w, (c + 1) as usize)));
                assert forall|t: Seq<char>|
                    has_key(counts@, t) <==> has_key(es0, t) || t == w@ by {
                    if has_key(es0, t) {
                        let j = choose|j: int| 0 <= j < es0.len() && (#[trigger] es0[j]).0@ == t;
                        if j == i {
                            assert(0 <= i < counts@.len() && counts@[i as int].0@ == t);
                        } else {
                            assert(0 <= j < counts@.len() && counts@[j].0@ == t);
                        }
                    }
                    if t == w@ {
                        assert(0 <= i < counts@.len() && counts@[i as int].0@ == t);
                    }
                }
                assert forall|t: Seq<char>| m.insert(w@).count(t) > 0 implies has_key(
                    counts@,
                    t,
                ) by {
                    if t != w@ {
                        assert(m.count(t) > 0);
                        assert(has_key(es0, t));
                    }
                }
            }
            return ;
        }
        i += 1;
    }
    counts.push((w, 1));
    proof {
        assert(!has_key(es0, w@));
        assert(m.count(w@) == 0) by {
            if m.count(w@) > 0 {
                assert(has_key(es0, w@));
            }
        }
        assert forall|j: int| 0 <= j < counts@.len() implies (#[trigger] counts@[j]).1
            == m.insert(w@).count(counts@[j].0@) by {
            if j < es0.len() {
                assert(counts@[j] == es0[j]);
                assert(es0[j].0@ != w@);
            } else {
                assert(counts@[j] == (w, 1usize));
            }
        }
        assert forall|t: Seq<char>| m.insert(w@).count(t) > 0 implies has_key(counts@, t) by {
            if t == w@ {
                assert(counts@[es0.len() as int].0@ == t);
            } else {
                assert(m.count(t) > 0);
                assert(has_key(es0, t));
                let j = choose|j: int| 0 <= j < es0.len() && (#[trigger] es0[j]).0@ == t;
                assert(counts@[j].0@ == t);
            }
        }
        assert forall|t: Seq<char>|
            has_key(counts@, t) <==> has_key(es0, t) || t == w@ by {
            if has_key(counts@, t) {
                let j = choose|j: int| 0 <= j < counts@.len() && (#[trigger] counts@[j]).0@ == t;
                if j < es0.len() {
                    assert(es0[j].0@ == t);
                }
            }
            if has_key(es0, t) {
                let j = choose|j: int| 0 <= j < es0.len() && (#[trigger] es0[j]).0@ == t;
                assert(counts@[j].0@ == t);
            }
            if t == w@ {
                assert(counts@[es0.len() as int].0@ == t);
            }
        }
    }
}

/// A table that matches the token occurrences of `toks` has exactly one
/// entry for each distinct token of `toks`.
pub proof fn lemma_table_covers(es: Seq<(String, usize)>, toks: Seq<Seq<char>>)
    requires
        keys_distinct(es),
        counts_match(es, toks.to_multiset()),
    ensures
        es.len() == toks.to_set().len(),
{
    broadcast use vstd::seq_lib::group_to_multiset_ensures;
    broadcast use vstd::set::group_set_axioms;

    let keys = es.map_values(|e: (String, usize)| e.0@);
    assert(keys.no_duplicates()) by {
        assert forall|i: int, j: int|
            0 <= i < keys.len() && 0 <= j < keys.len() && i != j implies keys[i] != keys[j] by {
            assert(keys[i] == es[i].0@ && keys[j] == es[j].0@);
        }
    }
    keys.unique_seq_to_set();
    assert(keys.to_set() =~= toks.to_set()) by {
        assert forall|t: Seq<char>| keys.contains(t) implies toks.contains(t) by {
            let i = choose|i: int| 0 <= i < keys.len() && keys[i] == t;
            assert(keys[i] == es[i].0@);
            assert(es[i].1 == toks.to_multiset().count(t) && es[i].1 >= 1);
        }
        assert forall|t: Seq<char>| toks.contains(t) implies keys.contains(t) by {
            assert(toks.to_multiset().count(t) > 0);
            assert(has_key(es, t));
            let i = choose|i: int| 0 <= i < es.len() && (#[trigger] es[i]).0@ == t;
            assert(keys[i] == t);
        }
    }
}

/// Scans all lines and builds the frequency table: one entry for each
/// distinct token, holding exactly how often it occurs across all lines.
///
/// The bound on the total number of token occurrences keeps every count
/// representable in a `usize`.
#[verifier::loop_isolation(false)]
pub fn count_tokens(lines: &[String]) -> (r: Vec<(String, usize)>)
    requires
        tokens_of_lines(views_of(lines@)).len() <= usize::MAX,
    ensures
        keys_distinct(r@),
        counts_match(r@, tokens_of_lines(views_of(lines@)).to_multiset()),
{
    broadcast use vstd::seq_lib::group_to_multiset_ensures;

    let ghost lv = views_of(lines@);
    let mut counts: Vec<(String, usize)> = Vec::new();
    proof {
        assert(lv.take(0) =~= Seq::<Seq<char>>::empty());
    }
    let mut li: usize = 0;
    while li < lines.len()
        invariant
            li <= lines.len(),
            keys_distinct(counts@),
            counts_match(counts@, tokens_of_lines(lv.take(li as int)).to_multiset()),
        decreases lines.len() - li,
    {
        let line: &String = &lines[li];
        proof {
            assert(line@ == lv[li as int]);
        }
        let n = line.as_str().unicode_len();
        let mut word = String::new();
        let ghost mut emitted = Seq::<Seq<char>>::empty();
        let mut idx: usize = 0;
        proof {
            assert(line@.skip(0) =~= line@);
            assert(emitted + tokens_from(word@, line@.skip(0)) =~= tokens_of_line(lv[li as int]));
        }
        while idx < n
            invariant
                idx <= n,
                forall|i2: int| 0 <= i2 < word@.len() ==> is_token_char(#[trigger] word@[i2]),
                tokens_of_line(lv[li as int]) == emitted + tokens_from(
                    word@,
                    line@.skip(idx as int),
                ),
                keys_distinct(counts@),
                counts_match(
                    counts@,
                    (tokens_of_lines(lv.take(li as int)) + emitted).to_multiset(),
                ),
            decreases n - idx,
        {
            let ghost done = tokens_of_lines(lv.take(li as int));
            let ghost rest = line@.skip(idx as int);
            proof {
                assert(rest[0] == line@[idx as int]);
                assert(rest.drop_first() =~= line@.skip(idx as int + 1));
            }
            let ghost wv = word@;
            let c = line.as_str().get_char(idx);
            match fold_word_char(c) {
                Some(d) => {
                    push_char(&mut word, d);
                    proof {
                        assert(tokens_from(wv, rest) == tokens_from(word@, rest.drop_first()));
                    }
                }
                None => {
                    if !word.as_str().is_empty() {
                        let w = word;
                        word = String::new();
                        let ghost m = (done + emitted).to_multiset();
                        proof {
                            lemma_tokens_of_lines_take_succ(lv, li as int);
                            lemma_tokens_of_lines_prefix_len(lv, li as int + 1);
                            assert(tokens_from(w@, rest) == flush(w@) + tokens_from(
                                Seq::empty(),
                                rest.drop_first(),
                            ));
                            assert(tokens_from(w@, rest).len() >= 1);
                            assert(m.count(w@) <= m.len());
                            assert(m.len() == done.len() + emitted.len());
                            assert(done.len() + tokens_of_line(lv[li as int]).len()
                                == tokens_of_lines(lv.take(li as int + 1)).len());
                            assert(m.count(w@) < usize::MAX);
                        }
                        bump(&mut counts, w, Ghost(m));
                        proof {
                            assert((done + emitted).push(w@) =~= done + emitted.push(w@));
                            assert((done + emitted.push(w@)).to_multiset() == m.insert(w@));
                            emitted = emitted.push(w@);
                            assert(emitted + tokens_from(word@, rest.drop_first()) =~= (emitted.drop_last()
                                + (flush(w@) + tokens_from(Seq::empty(), rest.drop_first()))));
                            assert(emitted + tokens_from(word@, rest.drop_first())
                                == tokens_of_line(lv[li as int]));
                        }
                    } else {
                        proof {
                            assert(wv =~= Seq::<char>::empty());
                            assert(flush(wv) + tokens_from(Seq::empty(), rest.drop_first())
                                =~= tokens_from(word@, rest.drop_first()));
                        }
                    }
                }
            }
            idx += 1;
        }
        proof {
            assert(line@.skip(n as int) =~= Seq::<char>::empty());
        }
        if !word.as_str().is_empty() {
            let w = word;
            word = String::new();
            let ghost done = tokens_of_lines(lv.take(li as int));
            let ghost m = (done + emitted).to_multiset();
            proof {
                lemma_tokens_of_lines_take_succ(lv, li as int);
                lemma_tokens_of_lines_prefix_len(lv, li as int + 1);
                assert(tokens_from(w@, line@.skip(n as int)) == flush(w@));
                assert(m.count(w@) <= m.len());
                assert(m.len() == done.len() + emitted.len());
                assert(done.len() + tokens_of_line(lv[li as int]).len() == tokens_of_lines(
                    lv.take(li as int + 1),
                ).len());
                assert(m.count(w@) < usize::MAX);
            }
            bump(&mut counts, w, Ghost(m));
            proof {
                assert((done + emitted).push(w@) =~= done + emitted.push(w@));
                assert((done + emitted.push(w@)).to_multiset() == m.insert(w@));
                emitted = emitted.push(w@);
            }
        }
        proof {
            assert(tokens_of_line(lv[li as int]) == emitted);
            lemma_tokens_of_lines_take_succ(lv, li as int);
        }
        li += 1;
    }
    proof {
        assert(lv.take(li as int) =~= lv);
    }
    counts
}

} // verus!
