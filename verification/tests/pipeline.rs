use leaderboard::dedup::dedup_play_logs;
use leaderboard::parse::{parse_entry_logs, parse_play_logs, ParseError};
use leaderboard::rank::{extract_game_result, lookup_handle};
use leaderboard::records::{EntryLog, GameResult, PlayLog};
use leaderboard::sort::sort_play_logs;
use leaderboard::format::u64_to_string;

fn play(ts: &str, id: &str, score: u64) -> PlayLog {
    PlayLog { create_timestamp: ts.to_string(), player_id: id.to_string(), score }
}

fn entry(id: &str, name: &str) -> EntryLog {
    EntryLog { player_id: id.to_string(), handle_name: name.to_string() }
}

fn lines_of(rows: &[GameResult]) -> Vec<String> {
    rows.iter().map(|r| r.to_line()).collect()
}

#[test]
fn dedup_keeps_higher_later_score() {
    let out = dedup_play_logs(&vec![play("t1", "p1", 50), play("t2", "p1", 70)]);
    assert_eq!(out.len(), 1);
    assert_eq!(out[0].score, 70);
    assert_eq!(out[0].create_timestamp, "t2");
}

#[test]
fn dedup_keeps_higher_earlier_score() {
    let out = dedup_play_logs(&vec![play("t1", "p1", 70), play("t2", "p1", 50)]);
    assert_eq!(out.len(), 1);
    assert_eq!(out[0].score, 70);
    assert_eq!(out[0].create_timestamp, "t1");
}

#[test]
fn dedup_equal_scores_first_wins() {
    let out = dedup_play_logs(&vec![play("first", "p1", 70), play("second", "p1", 70)]);
    assert_eq!(out.len(), 1);
    assert_eq!(out[0].score, 70);
    assert_eq!(out[0].create_timestamp, "first");
}

#[test]
fn sort_breaks_score_ties_by_player_id() {
    let mut logs = vec![play("t", "pb", 100), play("t", "pa", 100)];
    sort_play_logs(&mut logs);
    assert_eq!(logs[0].player_id, "pa");
    assert_eq!(logs[1].player_id, "pb");
}

#[test]
fn sort_orders_scores_descending() {
    let mut logs = vec![play("t", "p1", 10), play("t", "p2", 30), play("t", "p3", 20)];
    sort_play_logs(&mut logs);
    assert_eq!(logs[0].score, 30);
    assert_eq!(logs[1].score, 20);
    assert_eq!(logs[2].score, 10);
}

#[test]
fn ranking_competition_style() {
    let logs = vec![
        play("t", "p1", 100),
        play("t", "p2", 100),
        play("t", "p3", 90),
        play("t", "p4", 90),
        play("t", "p5", 90),
        play("t", "p6", 80),
    ];
    let roster: Vec<EntryLog> = (1..=6).map(|i| entry(&format!("p{}", i), &format!("n{}", i))).collect();
    let out = extract_game_result(logs, roster);
    let ranks: Vec<u64> = out.iter().map(|r| r.rank).collect();
    assert_eq!(ranks, vec![1, 1, 3, 3, 3, 6]);
}

#[test]
fn cutoff_keeps_first_ten_of_descending_scores() {
    let logs: Vec<PlayLog> = (0..11).map(|i| play("t", &format!("p{:02}", i), 100 - i as u64)).collect();
    let roster: Vec<EntryLog> = (0..11).map(|i| entry(&format!("p{:02}", i), "n")).collect();
    let out = extract_game_result(logs, roster);
    assert_eq!(out.len(), 10);
    let ranks: Vec<u64> = out.iter().map(|r| r.rank).collect();
    assert_eq!(ranks, vec![1, 2, 3, 4, 5, 6, 7, 8, 9, 10]);
}

#[test]
fn cutoff_tie_run_straddling_rank_ten() {
    // Eight distinct scores, then three rows tied at rank 9 (positions 9, 10
    // and 11), then a lower score whose computed rank is its position, 12:
    // that row and everything after it is cut, the whole tie run stays.
    let mut logs: Vec<PlayLog> = (0..8).map(|i| play("t", &format!("p{:02}", i), 100 - i as u64)).collect();
    logs.push(play("t", "p08", 50));
    logs.push(play("t", "p09", 50));
    logs.push(play("t", "p10", 50));
    logs.push(play("t", "p11", 40));
    logs.push(play("t", "p12", 30));
    let roster: Vec<EntryLog> = (0..13).map(|i| entry(&format!("p{:02}", i), "n")).collect();
    let out = extract_game_result(logs, roster);
    assert_eq!(out.len(), 11);
    let ranks: Vec<u64> = out.iter().map(|r| r.rank).collect();
    assert_eq!(ranks, vec![1, 2, 3, 4, 5, 6, 7, 8, 9, 9, 9]);
    assert_eq!(out[10].player_id, "p10");
}

#[test]
fn unregistered_players_are_dropped() {
    let logs = vec![play("t", "p1", 90), play("t", "ghost", 100)];
    let roster = vec![entry("p1", "Alice")];
    let out = extract_game_result(logs, roster);
    assert_eq!(out.len(), 1);
    assert_eq!(out[0].player_id, "p1");
    assert_eq!(out[0].rank, 1);
}

#[test]
fn end_to_end_expected_lines() {
    let roster_text = "player_id,handle_name\np1,Alice\np2,Bob\np3,Cara\n";
    let play_text = "create_timestamp,player_id,score\n\
                     2023-01-01,p1,50\n\
                     2023-01-02,p2,90\n\
                     2023-01-03,p2,80\n\
                     2023-01-04,p3,90\n";
    let roster = parse_entry_logs(roster_text).unwrap();
    let mut logs = dedup_play_logs(&parse_play_logs(play_text).unwrap());
    sort_play_logs(&mut logs);
    let out = extract_game_result(logs, roster);
    assert_eq!(
        lines_of(&out),
        vec!["1,p2,Bob,90".to_string(), "1,p3,Cara,90".to_string(), "3,p1,Alice,50".to_string()]
    );
}

#[test]
fn run_pipeline_end_to_end() {
    let roster_text = "player_id,handle_name\np1,Alice\np2,Bob\np3,Cara\n";
    let play_text = "create_timestamp,player_id,score\n\
                     2023-01-01,p1,50\n\
                     2023-01-02,p2,90\n\
                     2023-01-03,p2,80\n\
                     2023-01-04,p3,90\n";
    let lines = leaderboard::run_pipeline(roster_text, play_text).unwrap();
    assert_eq!(lines, vec!["1,p2,Bob,90", "1,p3,Cara,90", "3,p1,Alice,50"]);
}

#[test]
fn run_pipeline_reports_roster_fault_first() {
    // Both files are faulty; the roster file is read first and its fault
    // decides the error.
    let err = leaderboard::run_pipeline("wrong\n", "also wrong\n").unwrap_err();
    assert_eq!(err, ParseError::BadHeader);
    let err = leaderboard::run_pipeline(
        "player_id,handle_name\nonly_one_field\n",
        "create_timestamp,player_id,score\nt,p1,bad\n",
    )
    .unwrap_err();
    assert_eq!(err, ParseError::BadRow);
}

#[test]
fn roster_last_duplicate_wins() {
    let roster = parse_entry_logs("player_id,handle_name\np1,Old\np1,New\n").unwrap();
    assert_eq!(lookup_handle(&roster, &"p1".to_string()), Some("New".to_string()));
    assert_eq!(lookup_handle(&roster, &"p2".to_string()), None);
}

#[test]
fn parse_roster_bad_header() {
    assert!(matches!(parse_entry_logs(""), Err(ParseError::BadHeader)));
    assert!(matches!(parse_entry_logs("id,name\np1,Alice\n"), Err(ParseError::BadHeader)));
}

#[test]
fn parse_roster_bad_row() {
    assert!(matches!(parse_entry_logs("player_id,handle_name\np1,Alice,extra\n"), Err(ParseError::BadRow)));
    assert!(matches!(parse_entry_logs("player_id,handle_name\nonlyone\n"), Err(ParseError::BadRow)));
}

#[test]
fn parse_plays_bad_header() {
    assert!(matches!(parse_play_logs("player_id,score\n"), Err(ParseError::BadHeader)));
}

#[test]
fn parse_plays_bad_row() {
    assert!(matches!(
        parse_play_logs("create_timestamp,player_id,score\nt,p1\n"),
        Err(ParseError::BadRow)
    ));
}

#[test]
fn parse_plays_bad_score() {
    let hdr = "create_timestamp,player_id,score\n";
    assert!(matches!(parse_play_logs(&format!("{}t,p1,abc\n", hdr)), Err(ParseError::BadScore)));
    assert!(matches!(parse_play_logs(&format!("{}t,p1,\n", hdr)), Err(ParseError::BadScore)));
    assert!(matches!(parse_play_logs(&format!("{}t,p1,-5\n", hdr)), Err(ParseError::BadScore)));
    // One more than u64::MAX does not fit.
    assert!(matches!(
        parse_play_logs(&format!("{}t,p1,18446744073709551616\n", hdr)),
        Err(ParseError::BadScore)
    ));
    // u64::MAX itself does.
    let ok = parse_play_logs(&format!("{}t,p1,18446744073709551615\n", hdr)).unwrap();
    assert_eq!(ok[0].score, u64::MAX);
}

#[test]
fn parse_plays_first_error_wins() {
    // The earlier faulty row decides the error kind.
    let text = "create_timestamp,player_id,score\nt,p1\nt,p2,abc\n";
    assert!(matches!(parse_play_logs(text), Err(ParseError::BadRow)));
}

#[test]
fn parse_handles_crlf_and_blank_lines() {
    let text = "player_id,handle_name\r\n\r\np1,Alice\r\n\n";
    let roster = parse_entry_logs(text).unwrap();
    assert_eq!(roster.len(), 1);
    assert_eq!(roster[0].player_id, "p1");
    assert_eq!(roster[0].handle_name, "Alice");
}

#[test]
fn parse_plays_header_only_is_empty() {
    let logs = parse_play_logs("create_timestamp,player_id,score\n").unwrap();
    assert_eq!(logs.len(), 0);
}

#[test]
fn parse_plays_keeps_file_order_and_fields() {
    let logs = parse_play_logs("create_timestamp,player_id,score\nta,p1,007\ntb,p2,0\n").unwrap();
    assert_eq!(logs.len(), 2);
    assert_eq!(logs[0].create_timestamp, "ta");
    assert_eq!(logs[0].player_id, "p1");
    assert_eq!(logs[0].score, 7);
    assert_eq!(logs[1].score, 0);
}

#[test]
fn decimal_rendering() {
    assert_eq!(u64_to_string(0), "0");
    assert_eq!(u64_to_string(10), "10");
    assert_eq!(u64_to_string(1234567890123456789), "1234567890123456789");
    assert_eq!(u64_to_string(u64::MAX), "18446744073709551615");
}

#[test]
fn game_result_line() {
    let g = GameResult {
        rank: 3,
        player_id: "p1".to_string(),
        handle_name: "Alice".to_string(),
        score: 50,
    };
    assert_eq!(g.to_line(), "3,p1,Alice,50");
}
