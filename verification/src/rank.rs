//! Ranking: filter play records against the roster, assign competition-style
//! ranks over the sorted records, and stop at the rank cutoff.

use vstd::prelude::*;
use crate::MAX_RANK_CNT;
use crate::records::{EntryLog, EntryLogs, GameResult, PlayLog, PlayLogs};

verus! {

/// The handle name of the last roster entry carrying this player id, if any:
/// a later roster row for the same player overrides an earlier one.
pub open spec fn roster_lookup(roster: Seq<EntryLog>, id: Seq<char>) -> Option<Seq<char>>
    decreases roster.len(),
{
    if roster.len() == 0 {
        None
    } else if roster.last().player_id@ == id {
        Some(roster.last().handle_name@)
    } else {
        roster_lookup(roster.drop_last(), id)
    }
}

/// Look a player id up in the roster, returning the handle name recorded
/// for it by the last matching entry.
pub fn lookup_handle(roster: &Vec<EntryLog>, id: &String) -> (r: Option<String>)
    ensures
        match r {
            Some(h) => roster_lookup(roster@, id@) == Some(h@),
            None => roster_lookup(roster@, id@) is None,
        },
{
    let mut i: usize = roster.len();
    proof {
        assert(roster@.take(i as int) =~= roster@);
    }
    while i > 0
        invariant
            i <= roster@.len(),
            roster_lookup(roster@, id@) == roster_lookup(roster@.take(i as int), id@),
        decreases i,
    {
        i = i - 1;
        let entry = &roster[i];
        proof {
            assert(roster@.take(i + 1).last() == roster@[i as int]);
            assert(roster@.take(i + 1).drop_last() =~= roster@.take(i as int));
        }
        if entry.player_id == *id {
            return Some(entry.handle_name.clone());
        }
    }
    proof {
        assert(roster@.take(0) =~= Seq::<EntryLog>::empty());
    }
    None
}

/// The abstract content of one output row.
pub ghost struct RowV {
    pub rank: int,
    pub player_id: Seq<char>,
    pub handle_name: Seq<char>,
    pub score: u64,
}

impl View for GameResult {
    type V = RowV;

    open spec fn view(&self) -> RowV {
        RowV {
            rank: self.rank as int,
            player_id: self.player_id@,
            handle_name: self.handle_name@,
            score: self.score,
        }
    }
}

/// The abstract contents of a sequence of output rows.
pub open spec fn rows_view(s: Seq<GameResult>) -> Seq<RowV> {
    s.map_values(|g: GameResult| g@)
}

/// One walk over the play records, mirrored by `extract_game_result`:
/// unregistered players are skipped; a registered record is ranked `cnt`
/// (its 1-based position among the emitted rows) when its score is strictly
/// below the previous emitted score, and inherits `rank` otherwise; the walk
/// stops at the first row whose rank would exceed the cutoff.
pub open spec fn rank_walk(
    logs: Seq<PlayLog>,
    roster: Seq<EntryLog>,
    rank: int,
    cnt: int,
    prev: int,
) -> Seq<RowV>
    decreases logs.len(),
{
    if logs.len() == 0 {
        Seq::empty()
    } else {
        let l = logs[0];
        let rest = logs.drop_first();
        match roster_lookup(roster, l.player_id@) {
            None => rank_walk(rest, roster, rank, cnt, prev),
            Some(handle) => {
                let r2: int = if (l.score as int) < prev {
                    cnt
                } else {
                    rank
                };
                if r2 > MAX_RANK_CNT {
                    Seq::empty()
                } else {
                    seq![
                        RowV { rank: r2, player_id: l.player_id@, handle_name: handle, score: l.score },
                    ] + rank_walk(rest, roster, r2, cnt + 1, l.score as int)
                }
            },
        }
    }
}

/// The leaderboard rows for the given play records and roster.
pub open spec fn game_results_of(logs: Seq<PlayLog>, roster: Seq<EntryLog>) -> Seq<RowV> {
    rank_walk(logs, roster, 1, 1, 0)
}

/// Walk the (sorted, deduplicated) play records and build the output rows:
/// registered players only, competition ranks, cutoff at rank `MAX_RANK_CNT`.
pub fn extract_game_result(play_logs: PlayLogs, entry_logs: EntryLogs) -> (result: Vec<
    GameResult,
>)
    ensures
        rows_view(result@) == game_results_of(play_logs@, entry_logs@),
{
    let mut result: Vec<GameResult> = Vec::new();
    let mut rank: u64 = 1;
    let mut prev_score: u64 = 0;
    let mut t: usize = 0;
    let mut cut: bool = false;
    proof {
        assert(play_logs@.skip(0) =~= play_logs@);
        assert(rows_view(result@) =~= Seq::<RowV>::empty());
    }
    while t < play_logs.len() && !cut
        invariant
            t <= play_logs@.len(),
            result@.len() <= t,
            1 <= rank <= MAX_RANK_CNT,
            game_results_of(play_logs@, entry_logs@) =~= rows_view(result@) + rank_walk(
                play_logs@.skip(t as int),
                entry_logs@,
                rank as int,
                result@.len() + 1int,
                prev_score as int,
            ),
            cut ==> rank_walk(
                play_logs@.skip(t as int),
                entry_logs@,
                rank as int,
                result@.len() + 1int,
                prev_score as int,
            ) =~= Seq::<RowV>::empty(),
        decreases play_logs@.len() - t + (if cut {
            0int
        } else {
            1int
        }),
    {
        let ghost tail = play_logs@.skip(t as int);
        proof {
            assert(tail[0] == play_logs@[t as int]);
            assert(tail.drop_first() =~= play_logs@.skip(t + 1));
        }
        let l = &play_logs[t];
        match lookup_handle(&entry_logs, &l.player_id) {
            None => {},
            Some(handle_name) => {
                let new_rank: u64 = if l.score < prev_score {
                    (result.len() as u64) + 1
                } else {
                    rank
                };
                if MAX_RANK_CNT < new_rank {
                    cut = true;
                } else {
                    let g = GameResult {
                        rank: new_rank,
                        player_id: l.player_id.clone(),
                        handle_name,
                        score: l.score,
                    };
                    let ghost result_pre = result@;
                    let ghost w = rank_walk(
                        play_logs@.skip(t + 1),
                        entry_logs@,
                        new_rank as int,
                        result_pre.len() + 2int,
                        l.score as int,
                    );
                    result.push(g);
                    proof {
                        assert(rank_walk(
                            tail,
                            entry_logs@,
                            rank as int,
                            result_pre.len() + 1int,
                            prev_score as int,
                        ) =~= seq![g@] + w);
                        assert(rows_view(result@) =~= rows_view(result_pre).push(g@));
                        assert(rows_view(result_pre) + (seq![g@] + w) =~= rows_view(result@) + w);
                    }
                    rank = new_rank;
                    prev_score = l.score;
                }
            },
        }
        if !cut {
            t = t + 1;
        }
    }
    proof {
        if !cut {
            assert(play_logs@.skip(t as int) =~= Seq::<PlayLog>::empty());
        }
        assert(game_results_of(play_logs@, entry_logs@) =~= rows_view(result@));
    }
    result
}

} // verus!
