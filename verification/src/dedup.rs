//! Collapsing play records to one per player: the record kept for a player
//! is the first one in input order holding that player's maximum score.

use vstd::prelude::*;
use crate::records::PlayLog;

verus! {

/// Index of the first record carrying this player id, or -1 if none does.
pub open spec fn find_id(s: Seq<PlayLog>, id: Seq<char>) -> int
    decreases s.len(),
{
    if s.len() == 0 {
        -1
    } else if s[0].player_id@ == id {
        0
    } else if find_id(s.drop_first(), id) == -1 {
        -1
    } else {
        1 + find_id(s.drop_first(), id)
    }
}

pub proof fn lemma_find_id(s: Seq<PlayLog>, id: Seq<char>)
    ensures
        find_id(s, id) == -1 ==> forall|j: int| 0 <= j < s.len() ==> s[j].player_id@ != id,
        find_id(s, id) != -1 ==> {
            let k = find_id(s, id);
            &&& 0 <= k < s.len()
            &&& s[k].player_id@ == id
            &&& forall|j: int| 0 <= j < k ==> s[j].player_id@ != id
        },
    decreases s.len(),
{
    if s.len() != 0 && s[0].player_id@ != id {
        let rest = s.drop_first();
        lemma_find_id(rest, id);
        assert(forall|j: int| 1 <= j < s.len() ==> s[j] == #[trigger] rest[j - 1]);
        let kr = find_id(rest, id);
        if kr == -1 {
            assert forall|j: int| 0 <= j < s.len() implies s[j].player_id@ != id by {
                if j >= 1 {
                    assert(s[j] == rest[j - 1]);
                }
            }
        }
        if kr != -1 {
            assert(find_id(s, id) == 1 + kr);
            assert(s[1 + kr] == rest[kr]);
            assert forall|j: int| 0 <= j < 1 + kr implies s[j].player_id@ != id by {
                if j >= 1 {
                    assert(s[j] == rest[j - 1]);
                }
            }
        }
    }
}

/// Index of the first record carrying this player id and this score, or -1
/// if none does.
pub open spec fn first_hit(s: Seq<PlayLog>, id: Seq<char>, sc: u64) -> int
    decreases s.len(),
{
    if s.len() == 0 {
        -1
    } else if s[0].player_id@ == id && s[0].score == sc {
        0
    } else if first_hit(s.drop_first(), id, sc) == -1 {
        -1
    } else {
        1 + first_hit(s.drop_first(), id, sc)
    }
}

pub proof fn lemma_first_hit(s: Seq<PlayLog>, id: Seq<char>, sc: u64)
    ensures
        first_hit(s, id, sc) == -1 ==> forall|j: int|
            0 <= j < s.len() ==> !(s[j].player_id@ == id && #[trigger] s[j].score == sc),
        first_hit(s, id, sc) != -1 ==> {
            let k = first_hit(s, id, sc);
            &&& 0 <= k < s.len()
            &&& s[k].player_id@ == id && s[k].score == sc
            &&& forall|j: int|
                0 <= j < k ==> !(s[j].player_id@ == id && #[trigger] s[j].score == sc)
        },
    decreases s.len(),
{
    if s.len() != 0 && !(s[0].player_id@ == id && s[0].score == sc) {
        let rest = s.drop_first();
        lemma_first_hit(rest, id, sc);
        assert(forall|j: int| 1 <= j < s.len() ==> s[j] == #[trigger] rest[j - 1]);
        let kr = first_hit(rest, id, sc);
        if kr == -1 {
            assert forall|j: int|
                0 <= j < s.len() implies !(s[j].player_id@ == id && #[trigger] s[j].score
                == sc) by {
                if j >= 1 {
                    assert(s[j] == rest[j - 1]);
                }
            }
        } else {
            assert(first_hit(s, id, sc) == 1 + kr);
            assert(s[1 + kr] == rest[kr]);
            assert forall|j: int|
                0 <= j < 1 + kr implies !(s[j].player_id@ == id && #[trigger] s[j].score
                == sc) by {
                if j >= 1 {
                    assert(s[j] == rest[j - 1]);
                }
            }
        }
    }
}

/// The first index whose record matches is where `first_hit` points.
pub proof fn lemma_first_hit_at(s: Seq<PlayLog>, id: Seq<char>, sc: u64, j: int)
    requires
        0 <= j < s.len(),
        s[j].player_id@ == id && s[j].score == sc,
        forall|m: int| 0 <= m < j ==> !(s[m].player_id@ == id && #[trigger] s[m].score == sc),
    ensures
        first_hit(s, id, sc) == j,
    decreases s.len(),
{
    if j != 0 {
        let rest = s.drop_first();
        assert(forall|m: int| 0 <= m < s.len() - 1 ==> #[trigger] rest[m] == s[m + 1]);
        lemma_first_hit_at(rest, id, sc, j - 1);
    }
}

/// One step of deduplication: fold the next record into the collection,
/// replacing the record already kept for its player only on a strictly
/// greater score.
pub open spec fn dedup_step(acc: Seq<PlayLog>, l: PlayLog) -> Seq<PlayLog> {
    let k = find_id(acc, l.player_id@);
    if k == -1 {
        acc.push(l)
    } else if acc[k].score < l.score {
        acc.update(k, l)
    } else {
        acc
    }
}

/// The deduplicated form of a play log: records folded in input order,
/// one record kept per player.
pub open spec fn dedup_logs(logs: Seq<PlayLog>) -> Seq<PlayLog>
    decreases logs.len(),
{
    if logs.len() == 0 {
        Seq::empty()
    } else {
        dedup_step(dedup_logs(logs.drop_last()), logs.last())
    }
}

/// Index of the first record of the vector carrying this player id.
fn find_index(v: &Vec<PlayLog>, id: &String) -> (r: Option<usize>)
    ensures
        match r {
            Some(k) => k as int == find_id(v@, id@),
            None => find_id(v@, id@) == -1,
        },
{
    let mut k: usize = 0;
    while k < v.len()
        invariant
            k <= v@.len(),
            forall|j: int| 0 <= j < k ==> v@[j].player_id@ != id@,
        decreases v@.len() - k,
    {
        if v[k].player_id == *id {
            proof {
                lemma_find_id(v@, id@);
            }
            return Some(k);
        }
        k = k + 1;
    }
    proof {
        lemma_find_id(v@, id@);
    }
    None
}

/// Keep one record per player: the first record, in input order, holding
/// that player's maximum score. A later record replaces the kept one only
/// when its score is strictly greater.
pub fn dedup_play_logs(play_logs: &Vec<PlayLog>) -> (result: Vec<PlayLog>)
    ensures
        result@ == dedup_logs(play_logs@),
{
    let mut out: Vec<PlayLog> = Vec::new();
    let mut t: usize = 0;
    proof {
        assert(play_logs@.take(0) =~= Seq::<PlayLog>::empty());
    }
    while t < play_logs.len()
        invariant
            t <= play_logs@.len(),
            out@ == dedup_logs(play_logs@.take(t as int)),
        decreases play_logs@.len() - t,
    {
        let l = &play_logs[t];
        proof {
            assert(play_logs@.take(t + 1).drop_last() =~= play_logs@.take(t as int));
            assert(play_logs@.take(t + 1).last() == play_logs@[t as int]);
        }
        let ghost acc = out@;
        match find_index(&out, &l.player_id) {
            None => {
                out.push(l.clone());
                proof {
                    assert(out@ =~= dedup_step(acc, play_logs@[t as int]));
                }
            },
            Some(k) => {
                proof {
                    lemma_find_id(acc, l.player_id@);
                }
                if out[k].score < l.score {
                    out.remove(k);
                    out.insert(k, l.clone());
                    proof {
                        assert(out@ =~= acc.update(k as int, play_logs@[t as int]));
                    }
                } else {
                    proof {
                        assert(out@ =~= dedup_step(acc, play_logs@[t as int]));
                    }
                }
            },
        }
        t = t + 1;
    }
    proof {
        assert(play_logs@.take(play_logs@.len() as int) =~= play_logs@);
    }
    out
}

} // verus!
