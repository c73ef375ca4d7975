//! Best completion times, kept sorted and capped per difficulty.
use vstd::prelude::*;

use crate::state::Difficulty;

verus! {

/// How many entries are kept for each difficulty.
pub const LEADERBOARD_SIZE: usize = 20;

/// How many entries a screen shows for one difficulty.
pub const TOP_DISPLAY_COUNT: usize = 5;

#[derive(Debug, Clone)]
pub struct LeaderboardEntry {
    pub difficulty: Difficulty,
    pub time_seconds: u64,
    pub completed_at: String,
}

#[derive(Debug, Clone)]
pub struct Leaderboard {
    pub entries: Vec<LeaderboardEntry>,
}

/// Where a new entry goes: before the first entry of its difficulty with a
/// strictly longer time, or at the end.
pub open spec fn insert_position(s: Seq<LeaderboardEntry>, e: LeaderboardEntry) -> int
    decreases s.len(),
{
    if s.len() == 0 {
        0
    } else {
        let p = insert_position(s.drop_last(), e);
        if p < s.len() - 1 {
            p
        } else if s.last().difficulty == e.difficulty && s.last().time_seconds > e.time_seconds {
            s.len() - 1
        } else {
            s.len() as int
        }
    }
}

/// How many entries of `s` have difficulty `d`.
pub open spec fn count_of(s: Seq<LeaderboardEntry>, d: Difficulty) -> nat
    decreases s.len(),
{
    if s.len() == 0 {
        0
    } else {
        count_of(s.drop_last(), d) + if s.last().difficulty == d {
            1nat
        } else {
            0nat
        }
    }
}

/// `s` with every entry dropped that comes after the first
/// `LEADERBOARD_SIZE` entries of its difficulty.
pub open spec fn capped(s: Seq<LeaderboardEntry>) -> Seq<LeaderboardEntry>
    decreases s.len(),
{
    if s.len() == 0 {
        Seq::empty()
    } else {
        let p = capped(s.drop_last());
        if count_of(s, s.last().difficulty) <= LEADERBOARD_SIZE {
            p.push(s.last())
        } else {
            p
        }
    }
}

/// The entries of `s` with difficulty `d`, in order.
pub open spec fn of_difficulty(s: Seq<LeaderboardEntry>, d: Difficulty) -> Seq<LeaderboardEntry>
    decreases s.len(),
{
    if s.len() == 0 {
        Seq::empty()
    } else {
        let p = of_difficulty(s.drop_last(), d);
        if s.last().difficulty == d {
            p.push(s.last())
        } else {
            p
        }
    }
}

/// The references in `r` point at the entries of `s`, in order.
pub open spec fn same_entries(r: Seq<&LeaderboardEntry>, s: Seq<LeaderboardEntry>) -> bool {
    r.len() == s.len() && forall|i: int| 0 <= i < r.len() ==> *#[trigger] r[i] == s[i]
}

/// At most the first `n` items of `s`.
pub open spec fn first_n<T>(s: Seq<T>, n: nat) -> Seq<T> {
    if s.len() <= n {
        s
    } else {
        s.subrange(0, n as int)
    }
}

fn difficulty_index(d: Difficulty) -> (r: usize)
    ensures
        r < 4,
        r == match d {
            Difficulty::Easy => 0usize,
            Difficulty::Medium => 1,
            Difficulty::Hard => 2,
            Difficulty::Expert => 3,
        },
{
    match d {
        Difficulty::Easy => 0,
        Difficulty::Medium => 1,
        Difficulty::Hard => 2,
        Difficulty::Expert => 3,
    }
}

impl Leaderboard {
    pub fn new() -> (r: Self)
        ensures
            r.entries@ == Seq::<LeaderboardEntry>::empty(),
    {
        Leaderboard { entries: Vec::new() }
    }

    /// Inserts `entry` after every entry of its difficulty that is at least as
    /// fast, then keeps only the first `LEADERBOARD_SIZE` entries of each difficulty.
    pub fn add_entry(&mut self, entry: LeaderboardEntry)
        ensures
            final(self).entries@ == capped(
                old(self).entries@.insert(insert_position(old(self).entries@, entry), entry),
            ),
    {
        let ghost e = entry;
        let mut pos: usize = 0;
        let mut found = false;
        while !found && pos < self.entries.len()
            invariant
                pos <= self.entries@.len(),
                self.entries@ == old(self).entries@,
                e == entry,
                found ==> insert_position(self.entries@, e) == pos,
                !found ==> insert_position(self.entries@.subrange(0, pos as int), e) == pos,
            decreases self.entries@.len() - pos + if found {
                0int
            } else {
                1int
            },
        {
            proof {
                assert(self.entries@.subrange(0, pos + 1).drop_last() =~= self.entries@.subrange(
                    0,
                    pos as int,
                ));
            }
            let later = difficulty_index(self.entries[pos].difficulty) == difficulty_index(
                entry.difficulty,
            ) && self.entries[pos].time_seconds > entry.time_seconds;
            proof {
                let s = self.entries@.subrange(0, pos + 1);
                assert(s.last() == self.entries@[pos as int]);
            }
            if later {
                proof {
                    lemma_insert_position_prefix(self.entries@, e, pos as int);
                }
                found = true;
            } else {
                pos += 1;
            }
        }
        proof {
            if !found {
                assert(self.entries@.subrange(0, pos as int) =~= self.entries@);
            }
        }
        assert(pos == insert_position(old(self).entries@, e));
        self.entries.insert(pos, entry);
        let ghost inserted = self.entries@;
        assert(inserted == old(self).entries@.insert(insert_position(old(self).entries@, e), e));
        let total = self.entries.len();
        let mut counts: [usize; 4] = [0usize; 4];
        let mut i: usize = 0;
        let ghost mut k: int = 0;
        while i < self.entries.len()
            invariant
                0 <= i <= k <= inserted.len(),
                self.entries@ == capped(inserted.subrange(0, k)) + inserted.subrange(
                    k,
                    inserted.len() as int,
                ),
                capped(inserted.subrange(0, k)).len() == i,
                counts[0] as nat == count_of(inserted.subrange(0, k), Difficulty::Easy),
                counts[1] as nat == count_of(inserted.subrange(0, k), Difficulty::Medium),
                counts[2] as nat == count_of(inserted.subrange(0, k), Difficulty::Hard),
                counts[3] as nat == count_of(inserted.subrange(0, k), Difficulty::Expert),
                inserted.len() == total,
                inserted == old(self).entries@.insert(insert_position(old(self).entries@, e), e),
            decreases inserted.len() - k,
        {
            let idx = difficulty_index(self.entries[i].difficulty);
            proof {
                assert(self.entries@[i as int] == inserted[k]);
                assert(inserted.subrange(0, k + 1).drop_last() =~= inserted.subrange(0, k));
                assert(inserted.subrange(0, k + 1).last() == inserted[k]);
                lemma_count_bound(inserted.subrange(0, k), Difficulty::Easy);
                lemma_count_bound(inserted.subrange(0, k), Difficulty::Medium);
                lemma_count_bound(inserted.subrange(0, k), Difficulty::Hard);
                lemma_count_bound(inserted.subrange(0, k), Difficulty::Expert);
            }
            counts[idx] = counts[idx] + 1;
            if counts[idx] <= LEADERBOARD_SIZE {
                i += 1;
            } else {
                self.entries.remove(i);
            }
            proof {
                k = k + 1;
                assert(self.entries@ =~= capped(inserted.subrange(0, k)) + inserted.subrange(
                    k,
                    inserted.len() as int,
                ));
            }
        }
        proof {
            assert(inserted.subrange(k, inserted.len() as int).len() == 0);
            assert(inserted.subrange(0, k) =~= inserted);
            assert(self.entries@ =~= capped(inserted));
        }
    }

    /// The first `n` entries of `difficulty`, fastest first.
    pub fn get_top_for_difficulty(&self, difficulty: Difficulty, n: usize) -> (r: Vec<
        &LeaderboardEntry,
    >)
        ensures
            same_entries(r@, first_n(of_difficulty(self.entries@, difficulty), n as nat)),
    {
        let mut out: Vec<&LeaderboardEntry> = Vec::new();
        let mut i: usize = 0;
        while i < self.entries.len()
            invariant
                i <= self.entries@.len(),
                same_entries(
                    out@,
                    first_n(of_difficulty(self.entries@.subrange(0, i as int), difficulty), n as nat),
                ),
            decreases self.entries@.len() - i,
        {
            if out.len() >= n {
                proof {
                    lemma_first_n_stays(self.entries@, difficulty, i as int, n as nat);
                }
                return out;
            }
            proof {
                assert(self.entries@.subrange(0, i + 1).drop_last() =~= self.entries@.subrange(
                    0,
                    i as int,
                ));
            }
            if difficulty_index(self.entries[i].difficulty) == difficulty_index(difficulty) {
                out.push(&self.entries[i]);
            }
            i += 1;
        }
        proof {
            assert(self.entries@.subrange(0, i as int) =~= self.entries@);
        }
        out
    }
}

impl Default for Leaderboard {
    fn default() -> (r: Self)
        ensures
            r.entries@ == Seq::<LeaderboardEntry>::empty(),
    {
        Self::new()
    }
}

/// Once the insert position falls inside a prefix it stays there.
proof fn lemma_insert_position_prefix(s: Seq<LeaderboardEntry>, e: LeaderboardEntry, pos: int)
    requires
        0 <= pos < s.len(),
        insert_position(s.subrange(0, pos), e) == pos,
        s[pos].difficulty == e.difficulty && s[pos].time_seconds > e.time_seconds,
    ensures
        insert_position(s, e) == pos,
    decreases s.len() - pos,
{
    if pos == s.len() - 1 {
        assert(s.drop_last() =~= s.subrange(0, pos));
    } else {
        assert(s.drop_last().subrange(0, pos) =~= s.subrange(0, pos));
        lemma_insert_position_prefix(s.drop_last(), e, pos);
    }
}

proof fn lemma_count_bound(s: Seq<LeaderboardEntry>, d: Difficulty)
    ensures
        count_of(s, d) <= s.len(),
    decreases s.len(),
{
    if s.len() > 0 {
        lemma_count_bound(s.drop_last(), d);
    }
}

/// Once `n` entries have been taken, the rest of the list adds nothing.
proof fn lemma_first_n_stays(s: Seq<LeaderboardEntry>, d: Difficulty, i: int, n: nat)
    requires
        0 <= i <= s.len(),
        first_n(of_difficulty(s.subrange(0, i), d), n).len() >= n,
    ensures
        first_n(of_difficulty(s, d), n) == first_n(of_difficulty(s.subrange(0, i), d), n),
    decreases s.len() - i,
{
    if i < s.len() {
        let p = of_difficulty(s.subrange(0, i), d);
        let q = of_difficulty(s.subrange(0, i + 1), d);
        assert(s.subrange(0, i + 1).drop_last() =~= s.subrange(0, i));
        if q != p {
            assert(q =~= p.push(s[i]));
            assert(first_n(q, n) =~= first_n(p, n));
        }
        lemma_first_n_stays(s, d, i + 1, n);
    } else {
        assert(s.subrange(0, i) =~= s);
    }
}

} // verus!
