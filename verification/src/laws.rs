//! Laws of the pipeline, proved over the specification functions: what the
//! ranking emits, how ranks grow, and what deduplication keeps.

use vstd::prelude::*;
use crate::MAX_RANK_CNT;
use crate::records::{EntryLog, PlayLog};
use crate::rank::{game_results_of, rank_walk, roster_lookup};
use crate::dedup::{
    dedup_logs, find_id, first_hit, lemma_find_id, lemma_first_hit, lemma_first_hit_at,
};
use crate::order::{lemma_lex_le_antisym, row_le};
use crate::sort::sorted_rows;

verus! {

/// No two records carry the same player id.
pub open spec fn unique_ids(s: Seq<PlayLog>) -> bool {
    forall|i: int, j: int| 0 <= i < j < s.len() ==> s[i].player_id@ != s[j].player_id@
}

/// How many records belong to a registered player.
pub open spec fn count_reg(logs: Seq<PlayLog>, roster: Seq<EntryLog>) -> nat
    decreases logs.len(),
{
    if logs.len() == 0 {
        0
    } else {
        (if roster_lookup(roster, logs[0].player_id@) is Some {
            1nat
        } else {
            0nat
        }) + count_reg(logs.drop_first(), roster)
    }
}

/// Every emitted row names a registered player, under the handle the roster
/// records for it.
pub proof fn lemma_rank_walk_registered(
    logs: Seq<PlayLog>,
    roster: Seq<EntryLog>,
    rank: int,
    cnt: int,
    prev: int,
)
    ensures
        ({
            let out = rank_walk(logs, roster, rank, cnt, prev);
            forall|k: int|
                0 <= k < out.len() ==> roster_lookup(roster, #[trigger] out[k].player_id) == Some(
                    out[k].handle_name,
                )
        }),
    decreases logs.len(),
{
    let out = rank_walk(logs, roster, rank, cnt, prev);
    if logs.len() != 0 {
        let l = logs[0];
        let rest = logs.drop_first();
        match roster_lookup(roster, l.player_id@) {
            None => {
                lemma_rank_walk_registered(rest, roster, rank, cnt, prev);
            },
            Some(handle) => {
                let r2: int = if (l.score as int) < prev {
                    cnt
                } else {
                    rank
                };
                if r2 <= MAX_RANK_CNT {
                    lemma_rank_walk_registered(rest, roster, r2, cnt + 1, l.score as int);
                    let rec = rank_walk(rest, roster, r2, cnt + 1, l.score as int);
                    assert forall|k: int| 0 <= k < out.len() implies roster_lookup(
                        roster,
                        #[trigger] out[k].player_id,
                    ) == Some(out[k].handle_name) by {
                        if k >= 1 {
                            assert(out[k] == rec[k - 1]);
                        }
                    }
                }
            },
        }
    }
}

/// Emitted rows descend from the play records: each row carries some
/// record's player id and score, and, the records' ids being unique, no two
/// rows name the same player.
pub proof fn lemma_rank_walk_once(
    logs: Seq<PlayLog>,
    roster: Seq<EntryLog>,
    rank: int,
    cnt: int,
    prev: int,
)
    requires
        unique_ids(logs),
    ensures
        ({
            let out = rank_walk(logs, roster, rank, cnt, prev);
            &&& forall|k: int|
                0 <= k < out.len() ==> exists|j: int|
                    0 <= j < logs.len() && logs[j].player_id@ == #[trigger] out[k].player_id
                        && logs[j].score == out[k].score
            &&& forall|k1: int, k2: int|
                0 <= k1 < k2 < out.len() ==> out[k1].player_id != out[k2].player_id
        }),
    decreases logs.len(),
{
    let out = rank_walk(logs, roster, rank, cnt, prev);
    if logs.len() != 0 {
        let l = logs[0];
        let rest = logs.drop_first();
        assert(forall|m: int| 0 <= m < rest.len() ==> #[trigger] rest[m] == logs[m + 1]);
        assert(unique_ids(rest));
        match roster_lookup(roster, l.player_id@) {
            None => {
                lemma_rank_walk_once(rest, roster, rank, cnt, prev);
                let rec = rank_walk(rest, roster, rank, cnt, prev);
                assert(out == rec);
                assert forall|k: int| 0 <= k < out.len() implies exists|j: int|
                    0 <= j < logs.len() && logs[j].player_id@ == #[trigger] out[k].player_id
                        && logs[j].score == out[k].score by {
                    assert(exists|j0: int|
                        0 <= j0 < rest.len() && rest[j0].player_id@ == #[trigger] rec[k].player_id
                            && rest[j0].score == rec[k].score);
                    let j0 = choose|j0: int|
                        0 <= j0 < rest.len() && rest[j0].player_id@ == rec[k].player_id
                            && rest[j0].score == rec[k].score;
                    assert(rest[j0] == logs[j0 + 1]);
                    assert(0 <= j0 + 1 < logs.len() && logs[j0 + 1].player_id@ == out[k].player_id
                        && logs[j0 + 1].score == out[k].score);
                }
            },
            Some(handle) => {
                let r2: int = if (l.score as int) < prev {
                    cnt
                } else {
                    rank
                };
                if r2 <= MAX_RANK_CNT {
                    lemma_rank_walk_once(rest, roster, r2, cnt + 1, l.score as int);
                    let rec = rank_walk(rest, roster, r2, cnt + 1, l.score as int);
                    assert forall|k: int| 0 <= k < out.len() implies exists|j: int|
                        0 <= j < logs.len() && logs[j].player_id@ == #[trigger] out[k].player_id
                            && logs[j].score == out[k].score by {
                        if k == 0 {
                            assert(0 <= 0 < logs.len() && logs[0].player_id@ == out[0].player_id
                                && logs[0].score == out[0].score);
                        } else {
                            assert(out[k] == rec[k - 1]);
                            assert(exists|j0: int|
                                0 <= j0 < rest.len() && rest[j0].player_id@ == #[trigger] rec[k
                                    - 1].player_id && rest[j0].score == rec[k - 1].score);
                            let j0 = choose|j0: int|
                                0 <= j0 < rest.len() && rest[j0].player_id@ == rec[k
                                    - 1].player_id && rest[j0].score == rec[k - 1].score;
                            assert(rest[j0] == logs[j0 + 1]);
                            assert(0 <= j0 + 1 < logs.len() && logs[j0 + 1].player_id@
                                == out[k].player_id && logs[j0 + 1].score == out[k].score);
                        }
                    }
                    assert forall|k1: int, k2: int| 0 <= k1 < k2 < out.len() implies out[k1].player_id
                        != out[k2].player_id by {
                        if k1 == 0 {
                            assert(out[k2] == rec[k2 - 1]);
                            assert(exists|j0: int|
                                0 <= j0 < rest.len() && rest[j0].player_id@ == #[trigger] rec[k2
                                    - 1].player_id && rest[j0].score == rec[k2 - 1].score);
                            let j0 = choose|j0: int|
                                0 <= j0 < rest.len() && rest[j0].player_id@ == rec[k2
                                    - 1].player_id && rest[j0].score == rec[k2 - 1].score;
                            assert(rest[j0] == logs[j0 + 1]);
                            assert(logs[0].player_id@ != logs[j0 + 1].player_id@);
                        } else {
                            assert(out[k1] == rec[k1 - 1]);
                            assert(out[k2] == rec[k2 - 1]);
                        }
                    }
                }
            },
        }
    }
}

/// When every registered record fits under the cutoff, each one is emitted:
/// the walk emits exactly one row per registered record.
pub proof fn lemma_rank_walk_complete(
    logs: Seq<PlayLog>,
    roster: Seq<EntryLog>,
    rank: int,
    cnt: int,
    prev: int,
)
    requires
        1 <= rank <= cnt,
        cnt - 1 + count_reg(logs, roster) <= MAX_RANK_CNT,
    ensures
        ({
            let out = rank_walk(logs, roster, rank, cnt, prev);
            &&& out.len() == count_reg(logs, roster)
            &&& forall|j: int|
                0 <= j < logs.len() && roster_lookup(roster, #[trigger] logs[j].player_id@)
                    is Some ==> exists|k: int|
                    0 <= k < out.len() && out[k].player_id == logs[j].player_id@ && out[k].score
                        == logs[j].score
        }),
    decreases logs.len(),
{
    let out = rank_walk(logs, roster, rank, cnt, prev);
    if logs.len() != 0 {
        let l = logs[0];
        let rest = logs.drop_first();
        assert(forall|m: int| 0 <= m < rest.len() ==> #[trigger] rest[m] == logs[m + 1]);
        match roster_lookup(roster, l.player_id@) {
            None => {
                lemma_rank_walk_complete(rest, roster, rank, cnt, prev);
                assert forall|j: int|
                    0 <= j < logs.len() && roster_lookup(roster, #[trigger] logs[j].player_id@)
                        is Some implies exists|k: int|
                    0 <= k < out.len() && out[k].player_id == logs[j].player_id@ && out[k].score
                        == logs[j].score by {
                    assert(j >= 1);
                    assert(rest[j - 1] == logs[j]);
                }
            },
            Some(handle) => {
                let r2: int = if (l.score as int) < prev {
                    cnt
                } else {
                    rank
                };
                assert(r2 <= cnt);
                assert(count_reg(logs, roster) >= 1);
                assert(r2 <= MAX_RANK_CNT);
                lemma_rank_walk_complete(rest, roster, r2, cnt + 1, l.score as int);
                let rec = rank_walk(rest, roster, r2, cnt + 1, l.score as int);
                assert forall|j: int|
                    0 <= j < logs.len() && roster_lookup(roster, #[trigger] logs[j].player_id@)
                        is Some implies exists|k: int|
                    0 <= k < out.len() && out[k].player_id == logs[j].player_id@ && out[k].score
                        == logs[j].score by {
                    if j == 0 {
                        assert(out[0].player_id == logs[0].player_id@);
                    } else {
                        assert(rest[j - 1] == logs[j]);
                        let k0 = choose|k0: int|
                            0 <= k0 < rec.len() && rec[k0].player_id == rest[j - 1].player_id@
                                && rec[k0].score == rest[j - 1].score;
                        assert(out[k0 + 1] == rec[k0]);
                    }
                }
            },
        }
    }
}

/// Ranks never sink: each emitted rank lies between the incoming rank and
/// the cutoff, and later rows never rank better than earlier ones.
pub proof fn lemma_rank_walk_ranks(
    logs: Seq<PlayLog>,
    roster: Seq<EntryLog>,
    rank: int,
    cnt: int,
    prev: int,
)
    requires
        1 <= rank <= cnt,
    ensures
        ({
            let out = rank_walk(logs, roster, rank, cnt, prev);
            &&& forall|k: int| 0 <= k < out.len() ==> rank <= #[trigger] out[k].rank <= MAX_RANK_CNT
            &&& forall|k1: int, k2: int|
                0 <= k1 < k2 < out.len() ==> out[k1].rank <= out[k2].rank
        }),
    decreases logs.len(),
{
    let out = rank_walk(logs, roster, rank, cnt, prev);
    if logs.len() != 0 {
        let l = logs[0];
        let rest = logs.drop_first();
        match roster_lookup(roster, l.player_id@) {
            None => {
                lemma_rank_walk_ranks(rest, roster, rank, cnt, prev);
                let rec = rank_walk(rest, roster, rank, cnt, prev);
                assert(out == rec);
            },
            Some(handle) => {
                let r2: int = if (l.score as int) < prev {
                    cnt
                } else {
                    rank
                };
                if r2 <= MAX_RANK_CNT {
                    lemma_rank_walk_ranks(rest, roster, r2, cnt + 1, l.score as int);
                    let rec = rank_walk(rest, roster, r2, cnt + 1, l.score as int);
                    assert forall|k: int| 0 <= k < out.len() implies rank <= #[trigger] out[k].rank
                        <= MAX_RANK_CNT by {
                        if k >= 1 {
                            assert(out[k] == rec[k - 1]);
                            assert(r2 <= rec[k - 1].rank <= MAX_RANK_CNT);
                        }
                    }
                    assert forall|k1: int, k2: int| 0 <= k1 < k2 < out.len() implies out[k1].rank
                        <= out[k2].rank by {
                        assert(out[k2] == rec[k2 - 1]);
                        assert(r2 <= rec[k2 - 1].rank);
                        if k1 >= 1 {
                            assert(out[k1] == rec[k1 - 1]);
                        }
                    }
                }
            },
        }
    }
}

/// The filter law of the leaderboard: over play records with unique player
/// ids (the shape deduplication yields), every output row belongs to a
/// registered player and repeats a record's id and score, no player appears
/// twice, ranks are between 1 and the cutoff and never sink, and, when every
/// registered record fits under the cutoff, each one appears.
pub proof fn lemma_game_results_membership(logs: Seq<PlayLog>, roster: Seq<EntryLog>)
    requires
        unique_ids(logs),
    ensures
        ({
            let out = game_results_of(logs, roster);
            &&& forall|k: int|
                0 <= k < out.len() ==> roster_lookup(roster, #[trigger] out[k].player_id) == Some(
                    out[k].handle_name,
                )
            &&& forall|k: int|
                0 <= k < out.len() ==> exists|j: int|
                    0 <= j < logs.len() && logs[j].player_id@ == #[trigger] out[k].player_id
                        && logs[j].score == out[k].score
            &&& forall|k1: int, k2: int|
                0 <= k1 < k2 < out.len() ==> out[k1].player_id != out[k2].player_id
            &&& forall|k: int| 0 <= k < out.len() ==> 1 <= #[trigger] out[k].rank <= MAX_RANK_CNT
            &&& forall|k1: int, k2: int|
                0 <= k1 < k2 < out.len() ==> out[k1].rank <= out[k2].rank
            &&& count_reg(logs, roster) <= MAX_RANK_CNT ==> {
                &&& out.len() == count_reg(logs, roster)
                &&& forall|j: int|
                    0 <= j < logs.len() && roster_lookup(roster, #[trigger] logs[j].player_id@)
                        is Some ==> exists|k: int|
                        0 <= k < out.len() && out[k].player_id == logs[j].player_id@
                            && out[k].score == logs[j].score
            }
        }),
{
    lemma_rank_walk_registered(logs, roster, 1, 1, 0);
    lemma_rank_walk_once(logs, roster, 1, 1, 0);
    lemma_rank_walk_ranks(logs, roster, 1, 1, 0);
    if count_reg(logs, roster) <= MAX_RANK_CNT {
        lemma_rank_walk_complete(logs, roster, 1, 1, 0);
    }
}

/// The leaderboard order admits one arrangement only: two sequences holding
/// the same rows, each sorted, with no player id repeated, are equal. The
/// secondary key thus makes the sorted order deterministic.
pub proof fn lemma_sorted_rows_unique(x: Seq<PlayLog>, y: Seq<PlayLog>)
    requires
        sorted_rows(x),
        sorted_rows(y),
        x.to_multiset() == y.to_multiset(),
        unique_ids(x),
    ensures
        x == y,
    decreases x.len(),
{
    broadcast use vstd::seq_lib::group_to_multiset_ensures;
    broadcast use vstd::multiset::group_multiset_axioms;

    if x.len() == 0 || y.len() == 0 {
        assert(x.to_multiset().len() == x.len());
        assert(y.to_multiset().len() == y.len());
        assert(x =~= y);
    } else {
        assert(x.to_multiset().count(y[0]) > 0) by {
            assert(y.contains(y[0]));
        }
        assert(x.contains(y[0]));
        let i = choose|i: int| 0 <= i < x.len() && x[i] == y[0];
        assert(y.to_multiset().count(x[0]) > 0) by {
            assert(x.contains(x[0]));
        }
        assert(y.contains(x[0]));
        let i2 = choose|i2: int| 0 <= i2 < y.len() && y[i2] == x[0];
        assert(row_le(x[0], y[0])) by {
            if i != 0 {
                assert(row_le(x[0], x[i]));
            } else {
                crate::order::lemma_row_le_total(x[0], y[0]);
            }
        }
        assert(row_le(y[0], x[0])) by {
            if i2 != 0 {
                assert(row_le(y[0], y[i2]));
            } else {
                crate::order::lemma_row_le_total(y[0], x[0]);
            }
        }
        assert(x[0].score == y[0].score);
        lemma_lex_le_antisym(x[0].player_id@, y[0].player_id@);
        assert(x[0].player_id@ == y[0].player_id@);
        assert(i == 0) by {
            if i != 0 {
                assert(x[i].player_id@ == x[0].player_id@);
            }
        }
        assert(x[0] == y[0]);
        let xr = x.drop_first();
        let yr = y.drop_first();
        assert(xr =~= x.remove(0));
        assert(yr =~= y.remove(0));
        assert(xr.to_multiset() == x.to_multiset().remove(x[0]));
        assert(yr.to_multiset() == y.to_multiset().remove(y[0]));
        assert(forall|m: int| 0 <= m < xr.len() ==> #[trigger] xr[m] == x[m + 1]);
        assert(forall|m: int| 0 <= m < yr.len() ==> #[trigger] yr[m] == y[m + 1]);
        assert(sorted_rows(xr));
        assert(sorted_rows(yr));
        assert(unique_ids(xr));
        lemma_sorted_rows_unique(xr, yr);
        assert(x.len() == y.len());
        assert forall|m: int| 0 <= m < x.len() implies x[m] == y[m] by {
            if m >= 1 {
                assert(x[m] == xr[m - 1]);
                assert(y[m] == yr[m - 1]);
            }
        }
        assert(x =~= y);
    }
}

/// Deduplication keeps, for each player that played, a record with that
/// player's maximum score: no play record beats the kept one, and every
/// player with a record keeps one.
pub proof fn lemma_dedup_best(logs: Seq<PlayLog>)
    ensures
        ({
            let out = dedup_logs(logs);
            &&& forall|i: int, j: int|
                #![trigger out[i], logs[j]]
                0 <= i < out.len() && 0 <= j < logs.len() && logs[j].player_id@
                    == out[i].player_id@ ==> logs[j].score <= out[i].score
            &&& forall|j: int|
                0 <= j < logs.len() ==> exists|i: int|
                    0 <= i < out.len() && out[i].player_id@ == #[trigger] logs[j].player_id@
        }),
    decreases logs.len(),
{
    let out = dedup_logs(logs);
    if logs.len() != 0 {
        let dl = logs.drop_last();
        lemma_dedup_best(dl);
        lemma_dedup_unique_ids(dl);
        let acc = dedup_logs(dl);
        let l = logs.last();
        lemma_find_id(acc, l.player_id@);
        let k = find_id(acc, l.player_id@);
        assert(forall|m: int| 0 <= m < dl.len() ==> #[trigger] dl[m] == logs[m]);
        assert forall|i: int, j: int|
            #![trigger out[i], logs[j]]
            0 <= i < out.len() && 0 <= j < logs.len() && logs[j].player_id@
                == out[i].player_id@ implies logs[j].score <= out[i].score by {
            if k == -1 {
                if i < acc.len() {
                    assert(out[i] == acc[i]);
                    if j < logs.len() - 1 {
                        assert(acc[i] == dedup_logs(dl)[i] && dl[j] == logs[j]);
                    } else {
                        assert(acc[i].player_id@ != l.player_id@);
                    }
                } else {
                    assert(out[i] == l);
                    if j < logs.len() - 1 {
                        let i0 = choose|i0: int|
                            0 <= i0 < acc.len() && acc[i0].player_id@ == dl[j].player_id@;
                        assert(acc[i0].player_id@ != l.player_id@);
                    }
                }
            } else if acc[k].score < l.score {
                if i == k {
                    assert(out[k] == l);
                    if j < logs.len() - 1 {
                        assert(acc[k] == dedup_logs(dl)[k] && dl[j] == logs[j]);
                        assert(dl[j].score <= acc[k].score);
                    }
                } else {
                    assert(out[i] == acc[i]);
                    if j == logs.len() - 1 {
                        assert(acc[i].player_id@ != acc[k].player_id@);
                    } else {
                        assert(dl[j] == logs[j]);
                    }
                }
            } else {
                assert(out == acc);
                if j == logs.len() - 1 {
                    if i != k {
                        assert(acc[i].player_id@ != acc[k].player_id@);
                    }
                } else {
                    assert(dl[j] == logs[j]);
                }
            }
        }
        assert forall|j: int| 0 <= j < logs.len() implies exists|i: int|
            0 <= i < out.len() && out[i].player_id@ == #[trigger] logs[j].player_id@ by {
            if j < logs.len() - 1 {
                let i0 = choose|i0: int|
                    0 <= i0 < acc.len() && acc[i0].player_id@ == dl[j].player_id@;
                if k == -1 || !(acc[k].score < l.score) {
                    assert(out[i0].player_id@ == acc[i0].player_id@);
                    assert(0 <= i0 < out.len() && out[i0].player_id@ == logs[j].player_id@);
                } else {
                    assert(out[i0].player_id@ == acc[i0].player_id@);
                    assert(0 <= i0 < out.len() && out[i0].player_id@ == logs[j].player_id@);
                }
            } else {
                if k == -1 {
                    let i1 = acc.len() as int;
                    assert(0 <= i1 < out.len() && out[i1].player_id@ == logs[j].player_id@);
                } else {
                    assert(out[k].player_id@ == acc[k].player_id@);
                    assert(0 <= k < out.len() && out[k].player_id@ == logs[j].player_id@);
                }
            }
        }
    }
}

/// First wins on ties: each kept record is the first record, in input
/// order, carrying its player id and its score. With `lemma_dedup_best`,
/// which makes that score the player's maximum, the kept record is the
/// first one to attain it.
pub proof fn lemma_dedup_first_wins(logs: Seq<PlayLog>)
    ensures
        ({
            let out = dedup_logs(logs);
            forall|i: int|
                0 <= i < out.len() ==> {
                    let w = first_hit(logs, (#[trigger] out[i]).player_id@, out[i].score);
                    &&& 0 <= w < logs.len()
                    &&& logs[w] == out[i]
                }
        }),
    decreases logs.len(),
{
    let out = dedup_logs(logs);
    if logs.len() != 0 {
        let dl = logs.drop_last();
        lemma_dedup_first_wins(dl);
        lemma_dedup_best(dl);
        let acc = dedup_logs(dl);
        let l = logs.last();
        lemma_find_id(acc, l.player_id@);
        let k = find_id(acc, l.player_id@);
        assert(forall|m: int| 0 <= m < dl.len() ==> #[trigger] dl[m] == logs[m]);
        let last: int = logs.len() - 1;
        assert forall|i: int| 0 <= i < out.len() implies ({
            let w = first_hit(logs, (#[trigger] out[i]).player_id@, out[i].score);
            &&& 0 <= w < logs.len()
            &&& logs[w] == out[i]
        }) by {
            if (k == -1 && i == acc.len()) || (0 <= k && acc[k].score < l.score && i == k) {
                // The kept record is the new last record, and no earlier
                // record matches its id and score: for a fresh id the
                // accumulator would hold the id, for a replaced row every
                // earlier record of the id scores strictly less.
                assert(out[i] == l);
                assert forall|m: int|
                    0 <= m < last implies !(logs[m].player_id@ == l.player_id@
                    && #[trigger] logs[m].score == l.score) by {
                    if logs[m].player_id@ == l.player_id@ {
                        assert(dl[m] == logs[m]);
                        if k == -1 {
                            let i0 = choose|i0: int|
                                0 <= i0 < acc.len() && acc[i0].player_id@ == #[trigger] dl[m].player_id@;
                            assert(acc[i0].player_id@ != l.player_id@);
                        } else {
                            assert(acc[k] == dedup_logs(dl)[k]);
                            assert(dl[m].score <= acc[k].score);
                        }
                    }
                }
                lemma_first_hit_at(logs, l.player_id@, l.score, last);
            } else {
                assert(out[i] == acc[i]);
                let w0 = first_hit(dl, acc[i].player_id@, acc[i].score);
                assert(0 <= w0 < dl.len() && dl[w0] == acc[i]);
                lemma_first_hit(dl, acc[i].player_id@, acc[i].score);
                assert forall|m: int|
                    0 <= m < w0 implies !(logs[m].player_id@ == acc[i].player_id@
                    && #[trigger] logs[m].score == acc[i].score) by {
                    assert(dl[m] == logs[m]);
                    assert(!(dl[m].player_id@ == acc[i].player_id@ && dl[m].score
                        == acc[i].score));
                }
                assert(logs[w0] == out[i]);
                lemma_first_hit_at(logs, acc[i].player_id@, acc[i].score, w0);
            }
        }
    }
}

/// Deduplication leaves no player twice.
pub proof fn lemma_dedup_unique_ids(logs: Seq<PlayLog>)
    ensures
        unique_ids(dedup_logs(logs)),
    decreases logs.len(),
{
    if logs.len() != 0 {
        lemma_dedup_unique_ids(logs.drop_last());
        let acc = dedup_logs(logs.drop_last());
        let l = logs.last();
        lemma_find_id(acc, l.player_id@);
        let k = find_id(acc, l.player_id@);
        if k == -1 {
            let out = acc.push(l);
            assert forall|i: int, j: int| 0 <= i < j < out.len() implies out[i].player_id@
                != out[j].player_id@ by {
                if j == out.len() - 1 {
                    assert(out[i] == acc[i]);
                }
            }
        } else if acc[k].score < l.score {
            let out = acc.update(k, l);
            assert(out[k].player_id@ == acc[k].player_id@);
            assert(forall|i: int| 0 <= i < out.len() ==> #[trigger] out[i].player_id@
                == acc[i].player_id@);
        }
    }
}

} // verus!
