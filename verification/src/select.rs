//! Selecting the top `k` entries of the frequency table and ordering them
//! for display.

use vstd::prelude::*;
use vstd::math::min;
use crate::order::{
    entry_lt, entry_lt_exec, lemma_entry_lt_total, lemma_entry_lt_transitive,
};

verus! {

/// The view of a frequency-table entry: the token's characters and its count.
pub open spec fn entry_view(e: (String, usize)) -> (Seq<char>, int) {
    (e.0@, e.1 as int)
}

/// The views of a sequence of frequency-table entries.
pub open spec fn entry_views(es: Seq<(String, usize)>) -> Seq<(Seq<char>, int)> {
    es.map_values(|e: (String, usize)| entry_view(e))
}

/// Some entry carries token `t`.
pub open spec fn has_token(vs: Seq<(Seq<char>, int)>, t: Seq<char>) -> bool {
    exists|i: int| 0 <= i < vs.len() && (#[trigger] vs[i]).0 == t
}

/// No two entries carry the same token.
pub open spec fn distinct_tokens(vs: Seq<(Seq<char>, int)>) -> bool {
    forall|i: int, j: int|
        0 <= i < j < vs.len() ==> (#[trigger] vs[i]).0 != (#[trigger] vs[j]).0
}

/// Every entry strictly precedes every later entry in the display order.
pub open spec fn sorted_strict(vs: Seq<(Seq<char>, int)>) -> bool {
    forall|i: int, j: int|
        0 <= i < j < vs.len() ==> entry_lt(#[trigger] vs[i], #[trigger] vs[j])
}

/// Every entry of `vs` is one of the entries of `vs0`.
pub open spec fn from_among(vs: Seq<(Seq<char>, int)>, vs0: Seq<(Seq<char>, int)>) -> bool {
    forall|i: int| 0 <= i < vs.len() ==> vs0.contains(#[trigger] vs[i])
}

/// All the facts that tie the selection's two halves together: `ov` is what
/// has been selected so far, `csv` what is still to be considered, `vs0` the
/// whole table.
pub open spec fn selection_inv(
    ov: Seq<(Seq<char>, int)>,
    csv: Seq<(Seq<char>, int)>,
    vs0: Seq<(Seq<char>, int)>,
) -> bool {
    &&& ov.len() + csv.len() == vs0.len()
    &&& sorted_strict(ov)
    &&& distinct_tokens(ov)
    &&& distinct_tokens(csv)
    &&& (forall|i: int, j: int|
        0 <= i < ov.len() && 0 <= j < csv.len() ==> (#[trigger] ov[i]).0 != (#[trigger] csv[j]).0)
    &&& from_among(ov, vs0)
    &&& from_among(csv, vs0)
    &&& (forall|t: Seq<char>|
        #[trigger] has_token(vs0, t) ==> has_token(ov, t) || has_token(csv, t))
    &&& (forall|i: int, j: int|
        0 <= i < ov.len() && 0 <= j < csv.len() ==> entry_lt(
            #[trigger] ov[i],
            #[trigger] csv[j],
        ))
}

/// Finds the entry that precedes all others in the display order.
#[verifier::loop_isolation(false)]
fn find_best(cs: &Vec<(String, usize)>) -> (best: usize)
    requires
        cs@.len() > 0,
        distinct_tokens(entry_views(cs@)),
    ensures
        best < cs@.len(),
        forall|j: int|
            0 <= j < cs@.len() && j != best ==> entry_lt(
                entry_views(cs@)[best as int],
                #[trigger] entry_views(cs@)[j],
            ),
{
    let ghost csv = entry_views(cs@);
    let mut best: usize = 0;
    let mut bi: usize = 1;
    while bi < cs.len()
        invariant
            best < bi <= cs@.len(),
            forall|j: int|
                0 <= j < bi && j != best ==> entry_lt(
                    entry_views(cs@)[best as int],
                    #[trigger] entry_views(cs@)[j],
                ),
        decreases cs@.len() - bi,
    {
        if entry_lt_exec(&cs[bi], &cs[best]) {
            proof {
                assert(csv[bi as int] == entry_view(cs@[bi as int]));
                assert(csv[best as int] == entry_view(cs@[best as int]));
                assert forall|j: int| 0 <= j < bi + 1 && j != bi implies entry_lt(
                    csv[bi as int],
                    #[trigger] csv[j],
                ) by {
                    if j != best {
                        lemma_entry_lt_transitive(csv[bi as int], csv[best as int], csv[j]);
                    }
                }
            }
            best = bi;
        } else {
            proof {
                assert(csv[bi as int] == entry_view(cs@[bi as int]));
                assert(csv[best as int] == entry_view(cs@[best as int]));
                assert(csv[best as int].0 != csv[bi as int].0);
                lemma_entry_lt_total(csv[best as int], csv[bi as int]);
            }
        }
        bi += 1;
    }
    best
}

/// Before anything is selected, the whole table is still to be considered
/// and the selection's facts hold trivially.
proof fn lemma_selection_init(vs0: Seq<(Seq<char>, int)>)
    requires
        distinct_tokens(vs0),
    ensures
        selection_inv(Seq::empty(), vs0, vs0),
{
    assert forall|i: int| 0 <= i < vs0.len() implies vs0.contains(#[trigger] vs0[i]) by {
        assert(vs0[i] == vs0[i]);
    }
}

/// Moving the best remaining entry over to the selection preserves the
/// selection's facts.
proof fn lemma_selection_step(
    ov: Seq<(Seq<char>, int)>,
    csv: Seq<(Seq<char>, int)>,
    vs0: Seq<(Seq<char>, int)>,
    b: int,
    ovn: Seq<(Seq<char>, int)>,
    csn: Seq<(Seq<char>, int)>,
)
    requires
        selection_inv(ov, csv, vs0),
        0 <= b < csv.len(),
        forall|j: int| 0 <= j < csv.len() && j != b ==> entry_lt(csv[b], #[trigger] csv[j]),
        ovn == ov.push(csv[b]),
        csn == csv.update(b, csv.last()).drop_last(),
    ensures
        selection_inv(ovn, csn, vs0),
{
    let last = csv.len() - 1;
    assert(ovn[ov.len() as int] == csv[b]);
    assert forall|j: int| 0 <= j < csn.len() implies ((j == b ==> #[trigger] csn[j] == csv[last])
        && (j != b ==> csn[j] == csv[j])) by {}
    assert(sorted_strict(ovn)) by {
        assert forall|i: int, j: int| 0 <= i < j < ovn.len() implies entry_lt(
            #[trigger] ovn[i],
            #[trigger] ovn[j],
        ) by {
            if j < ov.len() {
                assert(ovn[i] == ov[i] && ovn[j] == ov[j]);
            } else {
                assert(ovn[j] == csv[b]);
                if i < ov.len() {
                    assert(ovn[i] == ov[i]);
                    assert(entry_lt(ov[i], csv[b]));
                }
            }
        }
    }
    assert(distinct_tokens(ovn)) by {
        assert forall|i: int, j: int| 0 <= i < j < ovn.len() implies (#[trigger] ovn[i]).0 != (
        #[trigger] ovn[j]).0 by {
            if j < ov.len() {
                assert(ovn[i] == ov[i] && ovn[j] == ov[j]);
            } else {
                assert(ovn[j] == csv[b]);
                if i < ov.len() {
                    assert(ovn[i] == ov[i]);
                }
            }
        }
    }
    assert(distinct_tokens(csn)) by {
        assert forall|i: int, j: int| 0 <= i < j < csn.len() implies (#[trigger] csn[i]).0 != (
        #[trigger] csn[j]).0 by {
            if i == b {
                assert(csn[i] == csv[last] && csn[j] == csv[j] && j < last);
            } else if j == b {
                assert(csn[j] == csv[last] && csn[i] == csv[i] && i < last);
            } else {
                assert(csn[i] == csv[i] && csn[j] == csv[j]);
            }
        }
    }
    assert forall|i: int, j: int| 0 <= i < ovn.len() && 0 <= j < csn.len() implies (
    #[trigger] ovn[i]).0 != (#[trigger] csn[j]).0 && entry_lt(ovn[i], csn[j]) by {
        let j0: int = if j == b {
            last
        } else {
            j
        };
        assert(csn[j] == csv[j0] && j0 != b);
        if i < ov.len() {
            assert(ovn[i] == ov[i]);
            assert(ov[i].0 != csv[j0].0);
            assert(entry_lt(ov[i], csv[j0]));
        } else {
            assert(ovn[i] == csv[b]);
            assert(entry_lt(csv[b], csv[j0]));
        }
    }
    assert forall|t: Seq<char>| #[trigger] has_token(vs0, t) implies has_token(ovn, t)
        || has_token(csn, t) by {
        if has_token(ov, t) {
            let i = choose|i: int| 0 <= i < ov.len() && (#[trigger] ov[i]).0 == t;
            assert(ovn[i].0 == t);
        } else if has_token(csv, t) {
            let m = choose|m: int| 0 <= m < csv.len() && (#[trigger] csv[m]).0 == t;
            if m == b {
                assert(ovn[ov.len() as int].0 == t);
            } else if m == last {
                assert(csn[b].0 == t);
            } else {
                assert(csn[m].0 == t);
            }
        }
    }
    assert(from_among(ovn, vs0)) by {
        assert forall|i: int| 0 <= i < ovn.len() implies vs0.contains(#[trigger] ovn[i]) by {
            if i < ov.len() {
                assert(ovn[i] == ov[i]);
                assert(vs0.contains(ov[i]));
            } else {
                assert(ovn[i] == csv[b]);
                assert(vs0.contains(csv[b]));
            }
        }
    }
    assert(from_among(csn, vs0)) by {
        assert forall|j: int| 0 <= j < csn.len() implies vs0.contains(#[trigger] csn[j]) by {
            let j0: int = if j == b {
                last
            } else {
                j
            };
            assert(csn[j] == csv[j0]);
            assert(vs0.contains(csv[j0]));
        }
    }
}

/// Once the selection stops, every table entry whose token was not selected
/// is preceded by every selected entry.
proof fn lemma_selection_done(
    ov: Seq<(Seq<char>, int)>,
    csv: Seq<(Seq<char>, int)>,
    vs0: Seq<(Seq<char>, int)>,
)
    requires
        selection_inv(ov, csv, vs0),
        distinct_tokens(vs0),
    ensures
        forall|i: int, j: int|
            0 <= i < ov.len() && 0 <= j < vs0.len() && !has_token(ov, (#[trigger] vs0[j]).0)
                ==> entry_lt(#[trigger] ov[i], vs0[j]),
{
    assert forall|i: int, j: int|
        0 <= i < ov.len() && 0 <= j < vs0.len() && !has_token(
            ov,
            (#[trigger] vs0[j]).0,
        ) implies entry_lt(#[trigger] ov[i], vs0[j]) by {
        assert(has_token(vs0, vs0[j].0));
        assert(has_token(csv, vs0[j].0));
        let m = choose|m: int| 0 <= m < csv.len() && (#[trigger] csv[m]).0 == vs0[j].0;
        assert(vs0.contains(csv[m]));
        let j2 = choose|j2: int| 0 <= j2 < vs0.len() && vs0[j2] == csv[m];
        assert(csv[m] == vs0[j2]);
        assert(j2 == j) by {
            if j2 != j {
                assert(vs0[j2].0 != vs0[j].0);
            }
        }
        assert(entry_lt(ov[i], csv[m]));
    }
}

/// Selects the `min(k, counts.len())` entries that come first in the display
/// order, returned sorted by that order: highest count first, ties broken by
/// the alphabetically earlier token. Entries left out are preceded by every
/// entry returned.
#[verifier::loop_isolation(false)]
#[verifier::rlimit(100)]
pub fn select_top_k(counts: Vec<(String, usize)>, k: usize) -> (r: Vec<(String, usize)>)
    requires
        distinct_tokens(entry_views(counts@)),
    ensures
        r@.len() == min(k as int, counts@.len() as int),
        sorted_strict(entry_views(r@)),
        distinct_tokens(entry_views(r@)),
        from_among(entry_views(r@), entry_views(counts@)),
        forall|i: int, j: int|
            0 <= i < r@.len() && 0 <= j < counts@.len() && !has_token(
                entry_views(r@),
                (#[trigger] entry_views(counts@)[j]).0,
            ) ==> entry_lt(#[trigger] entry_views(r@)[i], entry_views(counts@)[j]),
{
    let ghost vs0 = entry_views(counts@);
    let mut cs = counts;
    let mut out: Vec<(String, usize)> = Vec::new();
    proof {
        lemma_selection_init(vs0);
        assert(entry_views(cs@) == vs0);
        assert(entry_views(out@) =~= Seq::<(Seq<char>, int)>::empty());
    }
    while cs.len() > 0 && out.len() < k
        invariant
            out@.len() <= k,
            selection_inv(entry_views(out@), entry_views(cs@), vs0),
        decreases cs@.len(),
    {
        let ghost csv = entry_views(cs@);
        let ghost ov = entry_views(out@);
        let best = find_best(&cs);
        let ghost b = best as int;
        let e = cs.swap_remove(best);
        out.push(e);
        proof {
            assert(entry_views(out@) =~= ov.push(entry_view(e)));
            assert(entry_views(cs@) =~= csv.update(b, csv.last()).drop_last());
            assert(entry_view(e) == csv[b]);
            lemma_selection_step(ov, csv, vs0, b, entry_views(out@), entry_views(cs@));
        }
    }
    proof {
        if cs@.len() != 0 {
            assert(out@.len() == k);
        }
        assert(out@.len() == min(k as int, counts@.len() as int));
        lemma_selection_done(entry_views(out@), entry_views(cs@), vs0);
    }
    out
}

} // verus!
