//! Parsing the delimited tabular input files: a header row, then one
//! comma-separated record per line. Blank lines are skipped and a trailing
//! carriage return on a line is ignored.

use vstd::prelude::*;
use crate::records::{EntryLog, PlayLog};

verus! {

/// Why an input file was rejected.
#[derive(Clone, Copy, PartialEq, Eq, Structural, Debug)]
pub enum ParseError {
    /// The header line is missing or does not name the expected columns.
    BadHeader,
    /// A record line does not have the expected number of fields.
    BadRow,
    /// A score field is not a non-negative integer that fits in 64 bits.
    BadScore,
}

/// Index of the first occurrence of `c`, or -1 if `c` does not occur.
pub open spec fn find_char(s: Seq<char>, c: char) -> int
    decreases s.len(),
{
    if s.len() == 0 {
        -1
    } else if s[0] == c {
        0
    } else if find_char(s.drop_first(), c) == -1 {
        -1
    } else {
        1 + find_char(s.drop_first(), c)
    }
}

pub proof fn lemma_find_char_none(s: Seq<char>, c: char)
    requires
        forall|m: int| 0 <= m < s.len() ==> s[m] != c,
    ensures
        find_char(s, c) == -1,
    decreases s.len(),
{
    if s.len() != 0 {
        assert(forall|m: int| 0 <= m < s.len() - 1 ==> #[trigger] s.drop_first()[m] == s[m + 1]);
        lemma_find_char_none(s.drop_first(), c);
    }
}

pub proof fn lemma_find_char_first(s: Seq<char>, c: char, j: int)
    requires
        0 <= j < s.len(),
        s[j] == c,
        forall|m: int| 0 <= m < j ==> s[m] != c,
    ensures
        find_char(s, c) == j,
    decreases s.len(),
{
    if j != 0 {
        assert(forall|m: int| 0 <= m < s.len() - 1 ==> #[trigger] s.drop_first()[m] == s[m + 1]);
        lemma_find_char_first(s.drop_first(), c, j - 1);
    }
}

/// A line with a trailing carriage return dropped.
pub open spec fn strip_cr(l: Seq<char>) -> Seq<char> {
    if l.len() > 0 && l.last() == '\r' {
        l.drop_last()
    } else {
        l
    }
}

/// A cleaned line as a (possibly empty) run of lines: blank lines vanish.
pub open spec fn line_seq(l: Seq<char>) -> Seq<Seq<char>> {
    if strip_cr(l).len() == 0 {
        Seq::empty()
    } else {
        seq![strip_cr(l)]
    }
}

/// The non-blank lines of the text, split on line feeds, each with a
/// trailing carriage return dropped.
pub open spec fn clean_lines(s: Seq<char>) -> Seq<Seq<char>>
    decreases s.len(),
{
    let k = find_char(s, '\n');
    if 0 <= k < s.len() {
        line_seq(s.take(k)) + clean_lines(s.skip(k + 1))
    } else {
        line_seq(s)
    }
}

/// The fields of one record line, split on commas. A line without commas is
/// one field; every comma separates two (possibly empty) fields.
pub open spec fn split_fields(s: Seq<char>) -> Seq<Seq<char>>
    decreases s.len(),
{
    let k = find_char(s, ',');
    if 0 <= k < s.len() {
        seq![s.take(k)] + split_fields(s.skip(k + 1))
    } else {
        seq![s]
    }
}

/// The character sequences held by a vector of strings.
pub open spec fn strings_view(v: Seq<String>) -> Seq<Seq<char>> {
    v.map_values(|l: String| l@)
}

/// Split the text into its cleaned lines.
pub fn split_clean_lines(text: &str) -> (r: Vec<String>)
    ensures
        strings_view(r@) == clean_lines(text@),
{
    let n = text.unicode_len();
    let mut out: Vec<String> = Vec::new();
    let mut start: usize = 0;
    let mut i: usize = 0;
    proof {
        assert(text@.skip(0) =~= text@);
        assert(strings_view(out@) =~= Seq::<Seq<char>>::empty());
    }
    while i < n
        invariant
            start <= i <= n,
            n == text@.len(),
            forall|m: int| start <= m < i ==> text@[m] != '\n',
            clean_lines(text@) =~= strings_view(out@) + clean_lines(text@.skip(start as int)),
        decreases n - i,
    {
        let ch = text.get_char(i);
        if ch == '\n' {
            let ghost tail = text@.skip(start as int);
            proof {
                assert(forall|m: int|
                    0 <= m < tail.len() ==> #[trigger] tail[m] == text@[start + m]);
                lemma_find_char_first(tail, '\n', i - start);
                assert(tail.take(i - start) =~= text@.subrange(start as int, i as int));
                assert(tail.skip(i - start + 1) =~= text@.skip(i + 1));
            }
            let mut end: usize = i;
            if end > start && text.get_char(end - 1) == '\r' {
                end = end - 1;
            }
            proof {
                assert(strip_cr(text@.subrange(start as int, i as int)) =~= text@.subrange(
                    start as int,
                    end as int,
                ));
            }
            if end > start {
                let ghost out_pre = out@;
                let line = text.substring_char(start, end).to_owned();
                out.push(line);
                proof {
                    assert(strings_view(out@) =~= strings_view(out_pre).push(line@));
                    assert(strings_view(out_pre) + (seq![line@] + clean_lines(text@.skip(i + 1)))
                        =~= strings_view(out@) + clean_lines(text@.skip(i + 1)));
                }
            }
            start = i + 1;
        }
        i = i + 1;
    }
    let ghost tail = text@.skip(start as int);
    proof {
        assert(forall|m: int| 0 <= m < tail.len() ==> #[trigger] tail[m] == text@[start + m]);
        lemma_find_char_none(tail, '\n');
    }
    let mut end: usize = n;
    if end > start && text.get_char(end - 1) == '\r' {
        end = end - 1;
    }
    proof {
        assert(tail =~= text@.subrange(start as int, n as int));
        assert(strip_cr(tail) =~= text@.subrange(start as int, end as int));
    }
    if end > start {
        let ghost out_pre = out@;
        let line = text.substring_char(start, end).to_owned();
        out.push(line);
        proof {
            assert(strings_view(out@) =~= strings_view(out_pre).push(line@));
        }
    }
    out
}

/// Split one record line into its fields.
pub fn split_line_fields(line: &str) -> (r: Vec<String>)
    ensures
        strings_view(r@) == split_fields(line@),
{
    let n = line.unicode_len();
    let mut out: Vec<String> = Vec::new();
    let mut start: usize = 0;
    let mut i: usize = 0;
    proof {
        assert(line@.skip(0) =~= line@);
        assert(strings_view(out@) =~= Seq::<Seq<char>>::empty());
    }
    while i < n
        invariant
            start <= i <= n,
            n == line@.len(),
            forall|m: int| start <= m < i ==> line@[m] != ',',
            split_fields(line@) =~= strings_view(out@) + split_fields(line@.skip(start as int)),
        decreases n - i,
    {
        let ch = line.get_char(i);
        if ch == ',' {
            let ghost tail = line@.skip(start as int);
            proof {
                assert(forall|m: int|
                    0 <= m < tail.len() ==> #[trigger] tail[m] == line@[start + m]);
                lemma_find_char_first(tail, ',', i - start);
                assert(tail.take(i - start) =~= line@.subrange(start as int, i as int));
                assert(tail.skip(i - start + 1) =~= line@.skip(i + 1));
            }
            let ghost out_pre = out@;
            let field = line.substring_char(start, i).to_owned();
            out.push(field);
            proof {
                assert(strings_view(out@) =~= strings_view(out_pre).push(field@));
                assert(strings_view(out_pre) + (seq![field@] + split_fields(line@.skip(i + 1)))
                    =~= strings_view(out@) + split_fields(line@.skip(i + 1)));
            }
            start = i + 1;
        }
        i = i + 1;
    }
    let ghost tail = line@.skip(start as int);
    proof {
        assert(forall|m: int| 0 <= m < tail.len() ==> #[trigger] tail[m] == line@[start + m]);
        lemma_find_char_none(tail, ',');
    }
    let ghost out_pre = out@;
    let field = line.substring_char(start, n).to_owned();
    out.push(field);
    proof {
        assert(tail =~= line@.subrange(start as int, n as int));
        assert(strings_view(out@) =~= strings_view(out_pre).push(field@));
    }
    out
}

/// Decides whether two string slices hold the same characters.
pub fn str_equal(a: &str, b: &str) -> (r: bool)
    ensures
        r == (a@ == b@),
{
    let alen = a.unicode_len();
    let blen = b.unicode_len();
    if alen != blen {
        return false;
    }
    let mut i: usize = 0;
    while i < alen
        invariant
            i <= alen,
            alen == a@.len(),
            alen == b@.len(),
            forall|m: int| 0 <= m < i ==> a@[m] == b@[m],
        decreases alen - i,
    {
        if a.get_char(i) != b.get_char(i) {
            return false;
        }
        i = i + 1;
    }
    proof {
        assert(a@ =~= b@);
    }
    true
}

pub open spec fn is_digit(c: char) -> bool {
    48 <= c as u32 <= 57
}

/// A non-empty run of decimal digits.
pub open spec fn is_digits(s: Seq<char>) -> bool {
    s.len() > 0 && forall|i: int| 0 <= i < s.len() ==> is_digit(#[trigger] s[i])
}

pub open spec fn digit_val(c: char) -> nat {
    (c as u32 - 48) as nat
}

/// The value of a digit run read as a decimal number.
pub open spec fn digits_val(s: Seq<char>) -> nat
    decreases s.len(),
{
    if s.len() == 0 {
        0
    } else {
        digits_val(s.drop_last()) * 10 + digit_val(s.last())
    }
}

/// A longer digit prefix never has a smaller value.
pub proof fn lemma_digits_val_prefix_le(s: Seq<char>, i: int)
    requires
        0 <= i <= s.len(),
    ensures
        digits_val(s.take(i)) <= digits_val(s),
    decreases s.len() - i,
{
    if i == s.len() {
        assert(s.take(i) =~= s);
    } else {
        lemma_digits_val_prefix_le(s, i + 1);
        assert(s.take(i + 1).drop_last() =~= s.take(i));
        assert(digits_val(s.take(i + 1)) == digits_val(s.take(i)) * 10 + digit_val(
            s.take(i + 1).last(),
        ));
    }
}

/// The field is a digit run whose value fits in a `u64`.
pub open spec fn score_ok(f: Seq<char>) -> bool {
    is_digits(f) && digits_val(f) <= u64::MAX
}

/// Parse a score field: the decimal value of a non-empty digit run, if it
/// fits in a `u64`.
pub fn parse_score(s: &str) -> (r: Option<u64>)
    ensures
        match r {
            Some(v) => score_ok(s@) && v == digits_val(s@),
            None => !score_ok(s@),
        },
{
    let n = s.unicode_len();
    if n == 0 {
        return None;
    }
    let mut val: u64 = 0;
    let mut i: usize = 0;
    proof {
        assert(s@.take(0) =~= Seq::<char>::empty());
    }
    while i < n
        invariant
            i <= n,
            n == s@.len(),
            forall|m: int| 0 <= m < i ==> is_digit(#[trigger] s@[m]),
            val == digits_val(s@.take(i as int)),
        decreases n - i,
    {
        let c = s.get_char(i);
        let cv = c as u32;
        if cv < 48 || cv > 57 {
            return None;
        }
        let d = (cv - 48) as u64;
        proof {
            assert(s@.take(i + 1).drop_last() =~= s@.take(i as int));
            assert(s@.take(i + 1).last() == s@[i as int]);
        }
        if val > (u64::MAX - d) / 10 {
            proof {
                assert(digits_val(s@.take(i + 1)) == val * 10 + d);
                assert(val * 10 + d > u64::MAX) by {
                    assert(val >= (u64::MAX - d) / 10 + 1);
                    assert(val * 10 >= ((u64::MAX - d) / 10 + 1) * 10);
                    assert(((u64::MAX - d) / 10 + 1) * 10 > u64::MAX - d);
                }
                lemma_digits_val_prefix_le(s@, i + 1);
            }
            return None;
        }
        val = val * 10 + d;
        i = i + 1;
    }
    proof {
        assert(s@.take(n as int) =~= s@);
    }
    Some(val)
}

/// The roster file opens with exactly these column names.
pub open spec fn entry_header_ok(s: Seq<char>) -> bool {
    clean_lines(s).len() > 0 && clean_lines(s)[0] == "player_id,handle_name"@
}

pub open spec fn entry_row_ok(l: Seq<char>) -> bool {
    split_fields(l).len() == 2
}

pub open spec fn entry_rows_ok(s: Seq<char>) -> bool {
    forall|i: int| 1 <= i < clean_lines(s).len() ==> entry_row_ok(#[trigger] clean_lines(s)[i])
}

pub open spec fn entry_of_line(l: Seq<char>) -> (Seq<char>, Seq<char>) {
    (split_fields(l)[0], split_fields(l)[1])
}

/// The roster rows the file describes, as pairs of player id and handle name.
pub open spec fn entry_rows_of(s: Seq<char>) -> Seq<(Seq<char>, Seq<char>)> {
    clean_lines(s).skip(1).map_values(|l: Seq<char>| entry_of_line(l))
}

pub open spec fn entry_view(e: EntryLog) -> (Seq<char>, Seq<char>) {
    (e.player_id@, e.handle_name@)
}

pub open spec fn entries_view(v: Seq<EntryLog>) -> Seq<(Seq<char>, Seq<char>)> {
    v.map_values(|e: EntryLog| entry_view(e))
}

/// Parse the roster file: a `player_id,handle_name` header, then one roster
/// row per non-blank line.
pub fn parse_entry_logs(text: &str) -> (r: Result<Vec<EntryLog>, ParseError>)
    ensures
        match r {
            Ok(v) => entry_header_ok(text@) && entry_rows_ok(text@) && entries_view(v@)
                == entry_rows_of(text@),
            Err(ParseError::BadHeader) => !entry_header_ok(text@),
            Err(ParseError::BadRow) => entry_header_ok(text@) && !entry_rows_ok(text@),
            Err(ParseError::BadScore) => false,
        },
{
    let lines = split_clean_lines(text);
    if lines.len() == 0 {
        return Err(ParseError::BadHeader);
    }
    if !str_equal(lines[0].as_str(), "player_id,handle_name") {
        return Err(ParseError::BadHeader);
    }
    let ghost ls = clean_lines(text@);
    let mut v: Vec<EntryLog> = Vec::new();
    let mut i: usize = 1;
    proof {
        assert(entries_view(v@) =~= ls.subrange(1, 1).map_values(|l: Seq<char>| entry_of_line(l)));
    }
    while i < lines.len()
        invariant
            1 <= i <= lines@.len(),
            strings_view(lines@) == ls,
            ls == clean_lines(text@),
            entry_header_ok(text@),
            forall|j: int| 1 <= j < i ==> entry_row_ok(#[trigger] ls[j]),
            entries_view(v@) == ls.subrange(1, i as int).map_values(
                |l: Seq<char>| entry_of_line(l),
            ),
        decreases lines@.len() - i,
    {
        let mut fields = split_line_fields(lines[i].as_str());
        proof {
            assert(lines@[i as int]@ == ls[i as int]);
        }
        if fields.len() != 2 {
            proof {
                assert(strings_view(fields@).len() == fields@.len());
                assert(!entry_row_ok(ls[i as int]));
                assert(!entry_rows_ok(text@));
            }
            return Err(ParseError::BadRow);
        }
        let player_id = fields.remove(0);
        let handle_name = fields.remove(0);
        let ghost v_pre = v@;
        v.push(EntryLog { player_id, handle_name });
        proof {
            assert(ls.subrange(1, i + 1) =~= ls.subrange(1, i as int).push(ls[i as int]));
            assert(entries_view(v@) =~= entries_view(v_pre).push(entry_of_line(ls[i as int])));
            assert(entries_view(v@) =~= ls.subrange(1, i + 1).map_values(
                |l: Seq<char>| entry_of_line(l),
            ));
        }
        i = i + 1;
    }
    proof {
        assert(ls.subrange(1, ls.len() as int) =~= ls.skip(1));
    }
    Ok(v)
}

/// The play log file opens with exactly these column names.
pub open spec fn play_header_ok(s: Seq<char>) -> bool {
    clean_lines(s).len() > 0 && clean_lines(s)[0] == "create_timestamp,player_id,score"@
}

/// The first fault of one play record line, if any: a wrong field count,
/// or a score that is not a `u64` digit run.
pub open spec fn play_row_error(l: Seq<char>) -> Option<ParseError> {
    if split_fields(l).len() != 3 {
        Some(ParseError::BadRow)
    } else if !score_ok(split_fields(l)[2]) {
        Some(ParseError::BadScore)
    } else {
        None
    }
}

/// The first fault over a run of record lines, in order.
pub open spec fn play_rows_error(rows: Seq<Seq<char>>) -> Option<ParseError>
    decreases rows.len(),
{
    if rows.len() == 0 {
        None
    } else if play_row_error(rows[0]) is Some {
        play_row_error(rows[0])
    } else {
        play_rows_error(rows.drop_first())
    }
}

/// Rows before `i` being clean, the first fault lies at `i` or later.
pub proof fn lemma_play_rows_error_skip(rows: Seq<Seq<char>>, i: int)
    requires
        0 <= i <= rows.len(),
        forall|j: int| 0 <= j < i ==> play_row_error(#[trigger] rows[j]) is None,
    ensures
        play_rows_error(rows) == play_rows_error(rows.skip(i)),
    decreases i,
{
    if i == 0 {
        assert(rows.skip(0) =~= rows);
    } else {
        lemma_play_rows_error_skip(rows, i - 1);
        let t = rows.skip(i - 1);
        assert(t[0] == rows[i - 1]);
        assert(t.drop_first() =~= rows.skip(i));
    }
}

pub open spec fn play_of_line(l: Seq<char>) -> (Seq<char>, Seq<char>, u64) {
    (split_fields(l)[0], split_fields(l)[1], digits_val(split_fields(l)[2]) as u64)
}

/// The play records the file describes: timestamp, player id and score.
pub open spec fn play_rows_of(s: Seq<char>) -> Seq<(Seq<char>, Seq<char>, u64)> {
    clean_lines(s).skip(1).map_values(|l: Seq<char>| play_of_line(l))
}

pub open spec fn play_view(p: PlayLog) -> (Seq<char>, Seq<char>, u64) {
    (p.create_timestamp@, p.player_id@, p.score)
}

pub open spec fn plays_view(v: Seq<PlayLog>) -> Seq<(Seq<char>, Seq<char>, u64)> {
    v.map_values(|p: PlayLog| play_view(p))
}

/// The fault the roster file is rejected for, if any.
pub open spec fn entry_file_error(s: Seq<char>) -> Option<ParseError> {
    if !entry_header_ok(s) {
        Some(ParseError::BadHeader)
    } else if !entry_rows_ok(s) {
        Some(ParseError::BadRow)
    } else {
        None
    }
}

/// The fault the play log file is rejected for, if any.
pub open spec fn play_file_error(s: Seq<char>) -> Option<ParseError> {
    if !play_header_ok(s) {
        Some(ParseError::BadHeader)
    } else {
        play_rows_error(clean_lines(s).skip(1))
    }
}

/// Parse the play log file: a `create_timestamp,player_id,score` header,
/// then one play record per non-blank line, in file order.
pub fn parse_play_logs(text: &str) -> (r: Result<Vec<PlayLog>, ParseError>)
    ensures
        match r {
            Ok(v) => play_header_ok(text@) && play_rows_error(clean_lines(text@).skip(1)) is None
                && plays_view(v@) == play_rows_of(text@),
            Err(e) => (!play_header_ok(text@) && e == ParseError::BadHeader) || (play_header_ok(
                text@,
            ) && play_rows_error(clean_lines(text@).skip(1)) == Some(e)),
        },
{
    let lines = split_clean_lines(text);
    if lines.len() == 0 {
        return Err(ParseError::BadHeader);
    }
    if !str_equal(lines[0].as_str(), "create_timestamp,player_id,score") {
        return Err(ParseError::BadHeader);
    }
    let ghost ls = clean_lines(text@);
    let ghost data = ls.skip(1);
    let mut v: Vec<PlayLog> = Vec::new();
    let mut i: usize = 1;
    proof {
        assert(plays_view(v@) =~= ls.subrange(1, 1).map_values(|l: Seq<char>| play_of_line(l)));
    }
    while i < lines.len()
        invariant
            1 <= i <= lines@.len(),
            strings_view(lines@) == ls,
            ls == clean_lines(text@),
            play_header_ok(text@),
            data == ls.skip(1),
            forall|j: int| 0 <= j < i - 1 ==> play_row_error(#[trigger] data[j]) is None,
            plays_view(v@) == ls.subrange(1, i as int).map_values(|l: Seq<char>| play_of_line(l)),
        decreases lines@.len() - i,
    {
        let ghost line = ls[i as int];
        let mut fields = split_line_fields(lines[i].as_str());
        proof {
            assert(lines@[i as int]@ == line);
            assert(data[i - 1] == line);
        }
        if fields.len() != 3 {
            proof {
                assert(strings_view(fields@).len() == fields@.len());
                assert(play_row_error(line) == Some(ParseError::BadRow));
                lemma_play_rows_error_skip(data, i - 1);
                assert(data.skip(i - 1)[0] == line);
                assert(data.skip(i - 1).len() > 0);
                assert(play_rows_error(data) == Some(ParseError::BadRow));
            }
            return Err(ParseError::BadRow);
        }
        let create_timestamp = fields.remove(0);
        let player_id = fields.remove(0);
        let score_field = fields.remove(0);
        match parse_score(score_field.as_str()) {
            None => {
                proof {
                    assert(score_field@ == split_fields(line)[2]);
                    assert(play_row_error(line) == Some(ParseError::BadScore));
                    lemma_play_rows_error_skip(data, i - 1);
                    assert(data.skip(i - 1)[0] == line);
                    assert(data.skip(i - 1).len() > 0);
                    assert(play_rows_error(data) == Some(ParseError::BadScore));
                }
                return Err(ParseError::BadScore);
            },
            Some(score) => {
                let ghost v_pre = v@;
                v.push(PlayLog { create_timestamp, player_id, score });
                proof {
                    assert(ls.subrange(1, i + 1) =~= ls.subrange(1, i as int).push(line));
                    assert(plays_view(v@) =~= plays_view(v_pre).push(play_of_line(line)));
                    assert(plays_view(v@) =~= ls.subrange(1, i + 1).map_values(
                        |l: Seq<char>| play_of_line(l),
                    ));
                }
            },
        }
        i = i + 1;
    }
    proof {
        assert(ls.subrange(1, ls.len() as int) =~= data);
        lemma_play_rows_error_skip(data, data.len() as int);
        assert(data.skip(data.len() as int) =~= Seq::<Seq<char>>::empty());
    }
    Ok(v)
}

} // verus!
