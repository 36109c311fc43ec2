//! Sorting play records into leaderboard order.

use vstd::prelude::*;
use crate::records::{PlayLog, PlayLogs};
use crate::order::{row_le, row_le_exec, lemma_row_le_total, lemma_row_le_trans};

verus! {

/// Every row comes no later than each row after it, in leaderboard order.
pub open spec fn sorted_rows(s: Seq<PlayLog>) -> bool {
    forall|i: int, j: int| 0 <= i < j < s.len() ==> row_le(s[i], s[j])
}

/// Index of a row that comes no later than every row of the vector.
fn min_index(v: &Vec<PlayLog>) -> (best: usize)
    requires
        v@.len() > 0,
    ensures
        best < v@.len(),
        forall|j: int| 0 <= j < v@.len() ==> row_le(v@[best as int], v@[j]),
{
    let mut best: usize = 0;
    let mut k: usize = 1;
    proof {
        lemma_row_le_total(v@[0], v@[0]);
    }
    while k < v.len()
        invariant
            best < k,
            k <= v@.len(),
            forall|j: int| 0 <= j < k ==> row_le(v@[best as int], v@[j]),
        decreases v@.len() - k,
    {
        if !row_le_exec(&v[best], &v[k]) {
            proof {
                lemma_row_le_total(v@[best as int], v@[k as int]);
                assert forall|j: int| 0 <= j <= k implies row_le(
                    v@[k as int],
                    v@[j],
                ) by {
                    if j < k {
                        lemma_row_le_trans(v@[k as int], v@[best as int], v@[j]);
                    } else {
                        lemma_row_le_total(v@[k as int], v@[k as int]);
                    }
                }
            }
            best = k;
        }
        k = k + 1;
    }
    best
}

/// Reorder the play records by descending score, ties broken by ascending
/// player id. The records themselves are kept: the result holds the same
/// rows as the input, as a multiset.
pub fn sort_play_logs(play_logs: &mut PlayLogs)
    ensures
        final(play_logs)@.to_multiset() == old(play_logs)@.to_multiset(),
        sorted_rows(final(play_logs)@),
{
    broadcast use vstd::seq_lib::group_to_multiset_ensures;
    broadcast use vstd::multiset::group_multiset_axioms;

    let ghost m0 = play_logs@.to_multiset();
    let mut out: Vec<PlayLog> = Vec::new();
    while play_logs.len() > 0
        invariant
            out@.to_multiset().add(play_logs@.to_multiset()) =~= m0,
            sorted_rows(out@),
            forall|i: int, j: int|
                0 <= i < out@.len() && 0 <= j < play_logs@.len() ==> row_le(
                    out@[i],
                    play_logs@[j],
                ),
        decreases play_logs@.len(),
    {
        let ghost pre = play_logs@;
        let ghost out_pre = out@;
        let i = min_index(play_logs);
        let x = play_logs.remove(i);
        proof {
            broadcast use vstd::seq_lib::group_to_multiset_ensures;
            broadcast use vstd::multiset::group_multiset_axioms;

            assert(pre.contains(x)) by {
                assert(pre[i as int] == x);
            }
            assert(pre.to_multiset().count(x) > 0);
            assert(out_pre.to_multiset().insert(x).add(pre.to_multiset().remove(x)) =~= out_pre.to_multiset().add(pre.to_multiset()));
        }
        out.push(x);
        proof {
            assert forall|a: int, b: int|
                0 <= a < out@.len() && 0 <= b < play_logs@.len() implies row_le(
                out@[a],
                play_logs@[b],
            ) by {
                let pj: int = if b < i { b } else { b + 1 };
                assert(play_logs@[b] == pre[pj]);
                if a < out@.len() - 1 {
                    assert(row_le(out@[a], x));
                    lemma_row_le_trans(out@[a], x, pre[pj]);
                } else {
                    assert(out@[a] == x);
                }
            }
        }
    }
    *play_logs = out;
}

} // verus!
