//! Rendering ranked rows as comma-separated text lines.

use vstd::prelude::*;
use crate::parse::{digit_val, digits_val, is_digit, is_digits};
use crate::rank::RowV;
use crate::records::GameResult;

verus! {

/// The character printed for one decimal digit.
pub open spec fn digit_char(d: nat) -> char {
    if d == 0 {
        '0'
    } else if d == 1 {
        '1'
    } else if d == 2 {
        '2'
    } else if d == 3 {
        '3'
    } else if d == 4 {
        '4'
    } else if d == 5 {
        '5'
    } else if d == 6 {
        '6'
    } else if d == 7 {
        '7'
    } else if d == 8 {
        '8'
    } else {
        '9'
    }
}

/// The decimal rendering of a number: no sign, no leading zero except for 0.
pub open spec fn dec_str(n: nat) -> Seq<char>
    decreases n,
{
    if n < 10 {
        seq![digit_char(n)]
    } else {
        dec_str(n / 10).push(digit_char(n % 10))
    }
}

/// A rendered number reads back as itself: the decimal rendering is a digit
/// run whose value is the number rendered.
pub proof fn lemma_dec_str_round_trip(n: nat)
    ensures
        is_digits(dec_str(n)),
        digits_val(dec_str(n)) == n,
    decreases n,
{
    if n < 10 {
        let s = dec_str(n);
        assert(s.drop_last() =~= Seq::<char>::empty());
        assert(digits_val(Seq::<char>::empty()) == 0);
        assert(digit_char(n) as u32 == 48 + n);
        assert(digits_val(s) == digit_val(s.last()));
    } else {
        lemma_dec_str_round_trip(n / 10);
        let s = dec_str(n);
        assert(s.drop_last() =~= dec_str(n / 10));
        assert(digit_char(n % 10) as u32 == 48 + n % 10);
        assert(digits_val(s) == digits_val(dec_str(n / 10)) * 10 + digit_val(s.last()));
        assert forall|i: int| 0 <= i < s.len() implies is_digit(#[trigger] s[i]) by {
            if i < s.len() - 1 {
                assert(s[i] == dec_str(n / 10)[i]);
            }
        }
    }
}

/// The one-character string for a digit.
fn digit_str(d: u64) -> (r: &'static str)
    requires
        d < 10,
    ensures
        r@ == seq![digit_char(d as nat)],
{
    proof {
        reveal_strlit("0");
        reveal_strlit("1");
        reveal_strlit("2");
        reveal_strlit("3");
        reveal_strlit("4");
        reveal_strlit("5");
        reveal_strlit("6");
        reveal_strlit("7");
        reveal_strlit("8");
        reveal_strlit("9");
    }
    let r = if d == 0 {
        "0"
    } else if d == 1 {
        "1"
    } else if d == 2 {
        "2"
    } else if d == 3 {
        "3"
    } else if d == 4 {
        "4"
    } else if d == 5 {
        "5"
    } else if d == 6 {
        "6"
    } else if d == 7 {
        "7"
    } else if d == 8 {
        "8"
    } else {
        "9"
    };
    proof {
        assert(r@ =~= seq![digit_char(d as nat)]);
    }
    r
}

/// Render a number in decimal.
pub fn u64_to_string(n: u64) -> (s: String)
    ensures
        s@ == dec_str(n as nat),
    decreases n,
{
    if n < 10 {
        String::from_str(digit_str(n))
    } else {
        let mut s = u64_to_string(n / 10);
        s.append(digit_str(n % 10));
        proof {
            assert(dec_str((n / 10) as nat) + seq![digit_char((n % 10) as nat)] =~= dec_str(
                (n / 10) as nat,
            ).push(digit_char((n % 10) as nat)));
        }
        s
    }
}

/// The text line for one ranked row: rank, player id, handle name and score,
/// separated by commas.
pub open spec fn line_of_row(r: RowV) -> Seq<char> {
    dec_str(r.rank as nat) + seq![','] + r.player_id + seq![','] + r.handle_name + seq![',']
        + dec_str(r.score as nat)
}

impl GameResult {
    /// Render this row as its output line.
    pub fn to_line(&self) -> (r: String)
        ensures
            r@ == line_of_row(self@),
    {
        proof {
            reveal_strlit(",");
        }
        let mut s = u64_to_string(self.rank);
        s.append(",");
        s.append(self.player_id.as_str());
        s.append(",");
        s.append(self.handle_name.as_str());
        s.append(",");
        let sc = u64_to_string(self.score);
        s.append(sc.as_str());
        proof {
            assert(","@ =~= seq![',']);
            assert(s@ =~= line_of_row(self@));
        }
        s
    }
}

} // verus!
