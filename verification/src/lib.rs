//! A leaderboard pipeline: parse a roster of players and a log of play
//! attempts, keep each player's best score, rank registered players by score
//! (ties broken by player id), and render the top ranks as text rows.

pub mod dedup;
pub mod format;
pub mod laws;
pub mod order;
pub mod parse;
pub mod rank;
pub mod records;
pub mod sort;

use vstd::prelude::*;
use crate::dedup::{dedup_logs, dedup_play_logs};
use crate::format::line_of_row;
use crate::parse::{
    entry_file_error, entry_rows_of, entries_view, parse_entry_logs, parse_play_logs,
    play_file_error, play_rows_of, plays_view, strings_view, ParseError,
};
use crate::rank::{extract_game_result, game_results_of, rows_view, RowV};
use crate::records::{EntryLog, PlayLog};
use crate::sort::{sort_play_logs, sorted_rows};

verus! {

/// Rows whose computed rank exceeds this value are not emitted.
pub const MAX_RANK_CNT: u64 = 10;

/// The whole pipeline on the two input texts, roster first: parse both
/// files, keep each player's best score, sort, rank with the cutoff, and
/// render the output lines. The roster file's fault, if any, is reported
/// before the play log's.
pub fn run_pipeline(entry_text: &str, play_text: &str) -> (r: Result<Vec<String>, ParseError>)
    ensures
        match r {
            Ok(lines) => {
                &&& entry_file_error(entry_text@) is None
                &&& play_file_error(play_text@) is None
                &&& exists|roster: Seq<EntryLog>, logs: Seq<PlayLog>, sorted: Seq<PlayLog>|
                    {
                        &&& entries_view(roster) == entry_rows_of(entry_text@)
                        &&& plays_view(logs) == play_rows_of(play_text@)
                        &&& sorted.to_multiset() == dedup_logs(logs).to_multiset()
                        &&& sorted_rows(sorted)
                        &&& strings_view(lines@) == game_results_of(sorted, roster).map_values(
                            |row: RowV| line_of_row(row),
                        )
                    }
            },
            Err(e) => entry_file_error(entry_text@) == Some(e) || (entry_file_error(entry_text@)
                is None && play_file_error(play_text@) == Some(e)),
        },
{
    let roster = match parse_entry_logs(entry_text) {
        Ok(v) => v,
        Err(e) => {
            return Err(e);
        },
    };
    let logs = match parse_play_logs(play_text) {
        Ok(v) => v,
        Err(e) => {
            return Err(e);
        },
    };
    let ghost roster_v = roster@;
    let ghost logs_v = logs@;
    let mut best = dedup_play_logs(&logs);
    sort_play_logs(&mut best);
    let ghost sorted_v = best@;
    let rows = extract_game_result(best, roster);
    let ghost target = game_results_of(sorted_v, roster_v).map_values(|row: RowV| line_of_row(row));
    let mut lines: Vec<String> = Vec::new();
    let mut i: usize = 0;
    while i < rows.len()
        invariant
            i <= rows@.len(),
            rows_view(rows@) == game_results_of(sorted_v, roster_v),
            target == game_results_of(sorted_v, roster_v).map_values(|row: RowV| line_of_row(row)),
            lines@.len() == i,
            forall|j: int| 0 <= j < i ==> strings_view(lines@)[j] == target[j],
        decreases rows@.len() - i,
    {
        let line = rows[i].to_line();
        lines.push(line);
        proof {
            assert(rows_view(rows@)[i as int] == rows@[i as int]@);
            assert(target[i as int] == line_of_row(rows_view(rows@)[i as int]));
        }
        i = i + 1;
    }
    proof {
        assert(strings_view(lines@) =~= target);
        assert(entries_view(roster_v) == entry_rows_of(entry_text@) && plays_view(logs_v)
            == play_rows_of(play_text@) && sorted_v.to_multiset() == dedup_logs(
            logs_v,
        ).to_multiset() && sorted_rows(sorted_v) && strings_view(lines@) == game_results_of(
            sorted_v,
            roster_v,
        ).map_values(|row: RowV| line_of_row(row)));
    }
    Ok(lines)
}

} // verus!
