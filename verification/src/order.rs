//! Lexicographic order on player ids and the leaderboard row order
//! (score descending, then player id ascending).

use vstd::prelude::*;
use crate::records::PlayLog;

verus! {

/// `a` comes no later than `b` in lexicographic order on character sequences,
/// comparing characters by their scalar values.
pub open spec fn lex_le(a: Seq<char>, b: Seq<char>) -> bool
    decreases a.len(),
{
    if a.len() == 0 {
        true
    } else if b.len() == 0 {
        false
    } else if (a[0] as u32) < (b[0] as u32) {
        true
    } else if (b[0] as u32) < (a[0] as u32) {
        false
    } else {
        lex_le(a.skip(1), b.skip(1))
    }
}

pub proof fn lemma_lex_le_total(a: Seq<char>, b: Seq<char>)
    ensures
        lex_le(a, b) || lex_le(b, a),
    decreases a.len(),
{
    if a.len() != 0 && b.len() != 0 && a[0] as u32 == b[0] as u32 {
        lemma_lex_le_total(a.skip(1), b.skip(1));
    }
}

pub proof fn lemma_lex_le_trans(a: Seq<char>, b: Seq<char>, c: Seq<char>)
    requires
        lex_le(a, b),
        lex_le(b, c),
    ensures
        lex_le(a, c),
    decreases a.len(),
{
    if a.len() != 0 && b.len() != 0 && c.len() != 0 {
        if a[0] as u32 == b[0] as u32 && b[0] as u32 == c[0] as u32 {
            lemma_lex_le_trans(a.skip(1), b.skip(1), c.skip(1));
        }
    }
}

/// Distinct characters have distinct scalar values.
proof fn lemma_char_scalar_inj(a: char, b: char)
    requires
        a as u32 == b as u32,
    ensures
        a == b,
{
}

/// Sequences that come no later than each other are equal.
pub proof fn lemma_lex_le_antisym(a: Seq<char>, b: Seq<char>)
    requires
        lex_le(a, b),
        lex_le(b, a),
    ensures
        a == b,
    decreases a.len(),
{
    if a.len() != 0 && b.len() != 0 {
        assert(a[0] as u32 == b[0] as u32);
        lemma_char_scalar_inj(a[0], b[0]);
        lemma_lex_le_antisym(a.skip(1), b.skip(1));
        assert forall|m: int| 0 <= m < a.len() implies a[m] == b[m] by {
            if m >= 1 {
                assert(a[m] == a.skip(1)[m - 1]);
                assert(b[m] == b.skip(1)[m - 1]);
            }
        }
        assert(a =~= b);
    }
}

/// `a` comes no later than `b` on the leaderboard: higher score first,
/// ties broken by ascending player id.
pub open spec fn row_le(a: PlayLog, b: PlayLog) -> bool {
    a.score > b.score || (a.score == b.score && lex_le(a.player_id@, b.player_id@))
}

pub proof fn lemma_row_le_total(a: PlayLog, b: PlayLog)
    ensures
        row_le(a, b) || row_le(b, a),
{
    if a.score == b.score {
        lemma_lex_le_total(a.player_id@, b.player_id@);
    }
}

pub proof fn lemma_row_le_trans(a: PlayLog, b: PlayLog, c: PlayLog)
    requires
        row_le(a, b),
        row_le(b, c),
    ensures
        row_le(a, c),
{
    if a.score == b.score && b.score == c.score {
        lemma_lex_le_trans(a.player_id@, b.player_id@, c.player_id@);
    }
}

/// Decides `lex_le` over the characters of two string slices.
pub fn str_le(a: &str, b: &str) -> (r: bool)
    ensures
        r == lex_le(a@, b@),
{
    let alen = a.unicode_len();
    let blen = b.unicode_len();
    let mut i: usize = 0;
    proof {
        assert(a@.skip(0) =~= a@);
        assert(b@.skip(0) =~= b@);
    }
    loop
        invariant
            i <= alen,
            i <= blen,
            alen == a@.len(),
            blen == b@.len(),
            lex_le(a@, b@) == lex_le(a@.skip(i as int), b@.skip(i as int)),
        decreases alen - i,
    {
        if i == alen {
            return true;
        }
        if i == blen {
            return false;
        }
        let ca = a.get_char(i);
        let cb = b.get_char(i);
        if (ca as u32) != (cb as u32) {
            return (ca as u32) < (cb as u32);
        }
        proof {
            assert(a@.skip(i as int).skip(1) =~= a@.skip(i + 1));
            assert(b@.skip(i as int).skip(1) =~= b@.skip(i + 1));
        }
        i = i + 1;
    }
}

/// Decides the leaderboard row order `row_le`.
pub fn row_le_exec(a: &PlayLog, b: &PlayLog) -> (r: bool)
    ensures
        r == row_le(*a, *b),
{
    if a.score != b.score {
        a.score > b.score
    } else {
        str_le(a.player_id.as_str(), b.player_id.as_str())
    }
}

} // verus!
