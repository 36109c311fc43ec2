//! The data records that flow through the pipeline.

use vstd::prelude::*;

verus! {

/// One roster row: a registered player and the name shown for them.
pub struct EntryLog {
    pub player_id: String,
    pub handle_name: String,
}

/// One play attempt: an opaque timestamp, the player who played, and the score.
pub struct PlayLog {
    pub create_timestamp: String,
    pub player_id: String,
    pub score: u64,
}

/// The roster: entries in file order; on duplicate player ids the later
/// entry is the one a lookup sees.
pub type EntryLogs = Vec<EntryLog>;

/// The play log: one record per attempt, in file order.
pub type PlayLogs = Vec<PlayLog>;

/// One rendered leaderboard row.
pub struct GameResult {
    pub rank: u64,
    pub player_id: String,
    pub handle_name: String,
    pub score: u64,
}

impl Clone for PlayLog {
    fn clone(&self) -> (r: Self)
        ensures
            r == *self,
    {
        PlayLog {
            create_timestamp: self.create_timestamp.clone(),
            player_id: self.player_id.clone(),
            score: self.score,
        }
    }
}

impl Clone for EntryLog {
    fn clone(&self) -> (r: Self)
        ensures
            r == *self,
    {
        EntryLog { player_id: self.player_id.clone(), handle_name: self.handle_name.clone() }
    }
}

impl Clone for GameResult {
    fn clone(&self) -> (r: Self)
        ensures
            r == *self,
    {
        GameResult {
            rank: self.rank,
            player_id: self.player_id.clone(),
            handle_name: self.handle_name.clone(),
            score: self.score,
        }
    }
}

} // verus!
