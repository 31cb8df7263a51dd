//! Daily leaderboards: competition ranking of the games shared on one day.

use vstd::prelude::*;
use crate::date::Date;
use crate::puzzle::Puzzle;

verus! {

/// One stored submission of a game.
#[derive(Clone, Debug)]
pub struct Submission {
    pub id: u64,
    /// The display name of the player.
    pub submitter: String,
    /// The stable identifier of the player.
    pub submitted_by: u64,
    /// When the game was shared, as a timestamp that orders submissions.
    pub submitted_at: i64,
    /// The day the game was shared, in the deployment's time zone.
    pub submitted_date: Date,
    pub puzzle: Puzzle,
}

/// A submission's place on its day's leaderboard: `index` is its position in
/// the list that was ranked.
#[derive(Clone, Copy, Debug, PartialEq, Eq, Structural)]
pub struct RankedEntry {
    pub index: usize,
    pub rank: usize,
}

/// The number of submissions of `s` made on `day` with fewer guesses than
/// `attempts`.
pub open spec fn count_better(s: Seq<Submission>, day: Date, attempts: u32) -> nat
    decreases s.len(),
{
    if s.len() == 0 {
        0
    } else {
        count_better(s.drop_last(), day, attempts) + if s.last().submitted_date == day
            && s.last().puzzle.attempts < attempts {
            1nat
        } else {
            0nat
        }
    }
}

/// The competition rank of a game with `attempts` guesses among the
/// submissions of `day`: one more than the number that did strictly better.
pub open spec fn rank_of(s: Seq<Submission>, day: Date, attempts: u32) -> nat {
    1 + count_better(s, day, attempts)
}

/// Leaderboard order: fewer guesses first, then earlier submissions.
pub open spec fn comes_before(x: Submission, y: Submission) -> bool {
    x.puzzle.attempts < y.puzzle.attempts || (x.puzzle.attempts == y.puzzle.attempts
        && x.submitted_at <= y.submitted_at)
}

/// The number of the listed submissions with fewer guesses than `attempts`.
pub open spec fn count_below(s: Seq<Submission>, idx: Seq<usize>, attempts: u32) -> nat
    decreases idx.len(),
{
    if idx.len() == 0 {
        0
    } else {
        count_below(s, idx.drop_last(), attempts) + if s[idx.last() as int].puzzle.attempts
            < attempts {
            1nat
        } else {
            0nat
        }
    }
}

/// `idx` lists, once each, the positions of `s` whose submission was made on
/// `day`.
pub open spec fn lists_day(s: Seq<Submission>, day: Date, idx: Seq<usize>) -> bool {
    &&& idx.no_duplicates()
    &&& forall|j: int| 0 <= j < idx.len() ==> #[trigger] idx[j] < s.len()
    &&& forall|j: usize| #[trigger]
        idx.contains(j) <==> (j < s.len() && s[j as int].submitted_date == day)
}

/// The positions that `idx` lists are in leaderboard order.
pub open spec fn in_board_order(s: Seq<Submission>, idx: Seq<usize>) -> bool {
    forall|a: int, b: int|
        0 <= a < b < idx.len() ==> comes_before(s[#[trigger] idx[a] as int], s[#[trigger] idx[b] as int])
}

proof fn lemma_count_below_concat(s: Seq<Submission>, x: Seq<usize>, y: Seq<usize>, a: u32)
    ensures
        count_below(s, x + y, a) == count_below(s, x, a) + count_below(s, y, a),
    decreases y.len(),
{
    if y.len() == 0 {
        assert(x + y =~= x);
    } else {
        assert((x + y).drop_last() =~= x + y.drop_last());
        lemma_count_below_concat(s, x, y.drop_last(), a);
    }
}

proof fn lemma_count_below_insert(s: Seq<Submission>, idx: Seq<usize>, p: int, v: usize, a: u32)
    requires
        0 <= p <= idx.len(),
    ensures
        count_below(s, idx.insert(p, v), a) == count_below(s, idx, a) + if s[v as int].puzzle.attempts
            < a {
            1nat
        } else {
            0nat
        },
{
    assert(idx.insert(p, v) =~= idx.take(p) + seq![v] + idx.skip(p));
    assert(idx =~= idx.take(p) + idx.skip(p));
    lemma_count_below_concat(s, idx.take(p) + seq![v], idx.skip(p), a);
    lemma_count_below_concat(s, idx.take(p), seq![v], a);
    lemma_count_below_concat(s, idx.take(p), idx.skip(p), a);
    assert(seq![v].drop_last() =~= Seq::<usize>::empty());
    assert(seq![v].last() == v);
    assert(count_below(s, Seq::<usize>::empty(), a) == 0);
    assert(count_below(s, seq![v], a) == if s[v as int].puzzle.attempts < a {
        1nat
    } else {
        0nat
    });
}

/// Positions all with fewer guesses than `a` count in full.
proof fn lemma_count_below_all(s: Seq<Submission>, idx: Seq<usize>, a: u32)
    requires
        forall|j: int| 0 <= j < idx.len() ==> s[#[trigger] idx[j] as int].puzzle.attempts < a,
    ensures
        count_below(s, idx, a) == idx.len(),
    decreases idx.len(),
{
    if idx.len() > 0 {
        lemma_count_below_all(s, idx.drop_last(), a);
        assert(s[idx.last() as int].puzzle.attempts < a);
    }
}

/// Positions none with fewer guesses than `a` count nothing.
proof fn lemma_count_below_none(s: Seq<Submission>, idx: Seq<usize>, a: u32)
    requires
        forall|j: int| 0 <= j < idx.len() ==> s[#[trigger] idx[j] as int].puzzle.attempts >= a,
    ensures
        count_below(s, idx, a) == 0,
    decreases idx.len(),
{
    if idx.len() > 0 {
        lemma_count_below_none(s, idx.drop_last(), a);
        assert(s[idx.last() as int].puzzle.attempts >= a);
    }
}

/// In leaderboard order, the entries ahead of the first with `a` guesses are
/// exactly those that did better.
proof fn lemma_count_below_sorted(s: Seq<Submission>, idx: Seq<usize>, f: int)
    requires
        in_board_order(s, idx),
        0 <= f < idx.len(),
        f == 0 || s[idx[f - 1] as int].puzzle.attempts < s[idx[f] as int].puzzle.attempts,
    ensures
        count_below(s, idx, s[idx[f] as int].puzzle.attempts) == f,
{
    let a = s[idx[f] as int].puzzle.attempts;
    assert(idx =~= idx.take(f) + idx.skip(f));
    lemma_count_below_concat(s, idx.take(f), idx.skip(f), a);
    assert forall|j: int| 0 <= j < idx.take(f).len() implies s[#[trigger] idx.take(f)[j] as int].puzzle.attempts < a by {
        if j < f - 1 {
            assert(comes_before(s[idx[j] as int], s[idx[f - 1] as int]));
        }
    }
    lemma_count_below_all(s, idx.take(f), a);
    assert forall|j: int| 0 <= j < idx.skip(f).len() implies s[#[trigger] idx.skip(f)[j] as int].puzzle.attempts >= a by {
        if j > 0 {
            assert(comes_before(s[idx[f] as int], s[idx[f + j] as int]));
        }
    }
    lemma_count_below_none(s, idx.skip(f), a);
}

/// Counting over one more submission.
proof fn lemma_count_better_step(s: Seq<Submission>, day: Date, i: int, a: u32)
    requires
        0 <= i < s.len(),
    ensures
        count_better(s.take(i + 1), day, a) == count_better(s.take(i), day, a) + if s[i].submitted_date
            == day && s[i].puzzle.attempts < a {
            1nat
        } else {
            0nat
        },
{
    assert(s.take(i + 1).drop_last() =~= s.take(i));
}

/// The competition ranks of the submissions of `day` in `submissions`, in
/// leaderboard order: fewer guesses first, earlier submissions first among
/// equal guesses. Tied games share a rank, and the next rank skips as many
/// numbers as games tied.
pub fn rank(submissions: &Vec<Submission>, day: Date) -> (r: Vec<RankedEntry>)
    ensures
        lists_day(submissions@, day, r@.map_values(|e: RankedEntry| e.index)),
        in_board_order(submissions@, r@.map_values(|e: RankedEntry| e.index)),
        forall|k: int| 0 <= k < r.len() ==> #[trigger] r@[k].rank == rank_of(
            submissions@,
            day,
            submissions@[r@[k].index as int].puzzle.attempts,
        ),
{
    let ghost s = submissions@;
    let order = board_order(submissions, day);
    let mut out: Vec<RankedEntry> = Vec::new();
    let mut k: usize = 0;
    let mut first: usize = 0;
    while k < order.len()
        invariant
            s == submissions@,
            lists_day(s, day, order@),
            in_board_order(s, order@),
            forall|a: u32| #[trigger] count_below(s, order@, a) == count_better(s, day, a),
            0 <= k <= order.len(),
            out.len() == k,
            first <= k,
            k > 0 ==> first < k && (first == 0 || s[order@[first - 1] as int].puzzle.attempts
                < s[order@[first as int] as int].puzzle.attempts) && s[order@[first as int] as int].puzzle.attempts
                == s[order@[k - 1] as int].puzzle.attempts,
            forall|j: int| 0 <= j < k ==> (#[trigger] out@[j]).index == order@[j],
            forall|j: int| 0 <= j < k ==> #[trigger] out@[j].rank == rank_of(
                s,
                day,
                s[out@[j].index as int].puzzle.attempts,
            ),
        decreases order.len() - k,
    {
        let i = order[k];
        if k > 0 && submissions[order[k - 1]].puzzle.attempts != submissions[i].puzzle.attempts {
            first = k;
        } else if k == 0 {
            first = 0;
        }
        proof {
            if k > 0 && first < k {
                assert(comes_before(s[order@[k - 1] as int], s[order@[k as int] as int]));
            }
            if first < k {
                assert(first == 0 || s[order@[first - 1] as int].puzzle.attempts < s[order@[first as int] as int].puzzle.attempts);
            }
            lemma_count_below_sorted(s, order@, first as int);
            assert(count_below(s, order@, s[i as int].puzzle.attempts) == count_better(s, day, s[i as int].puzzle.attempts));
        }
        out.push(RankedEntry { index: i, rank: first + 1 });
        k = k + 1;
    }
    assert(out@.map_values(|e: RankedEntry| e.index) =~= order@);
    out
}

/// The positions of the submissions of `day`, in leaderboard order.
fn board_order(submissions: &Vec<Submission>, day: Date) -> (r: Vec<usize>)
    ensures
        lists_day(submissions@, day, r@),
        in_board_order(submissions@, r@),
        forall|a: u32| #[trigger] count_below(submissions@, r@, a) == count_better(submissions@, day, a),
{
    let ghost s = submissions@;
    let mut out: Vec<usize> = Vec::new();
    let mut i: usize = 0;
    while i < submissions.len()
        invariant
            s == submissions@,
            0 <= i <= s.len(),
            out@.no_duplicates(),
            forall|j: int| 0 <= j < out.len() ==> #[trigger] out@[j] < i,
            forall|j: usize| #[trigger] out@.contains(j) <==> (j < i && s[j as int].submitted_date == day),
            in_board_order(s, out@),
            forall|a: u32| #[trigger] count_below(s, out@, a) == count_better(s.take(i as int), day, a),
        decreases s.len() - i,
    {
        let sub = &submissions[i];
        proof {
            assert forall|a: u32| true implies #[trigger] count_better(s.take(i as int + 1), day, a) == count_better(s.take(i as int), day, a)
                + if s[i as int].submitted_date == day && s[i as int].puzzle.attempts < a { 1nat } else { 0nat } by {
                lemma_count_better_step(s, day, i as int, a);
            }
        }
        if sub.submitted_date.same_day(day) {
            let mut p: usize = 0;
            while p < out.len() && (submissions[out[p]].puzzle.attempts < sub.puzzle.attempts || (
            submissions[out[p]].puzzle.attempts == sub.puzzle.attempts
                && submissions[out[p]].submitted_at <= sub.submitted_at))
                invariant
                    s == submissions@,
                    0 <= p <= out.len(),
                    forall|j: int| 0 <= j < out.len() ==> #[trigger] out@[j] < i,
                    i < s.len(),
                    sub == s[i as int],
                    forall|j: int| 0 <= j < p ==> comes_before(s[#[trigger] out@[j] as int], s[i as int]),
                decreases out.len() - p,
            {
                p = p + 1;
            }
            let ghost before = out@;
            out.insert(p, i);
            proof {
                assert(out@ == before.insert(p as int, i));
                assert forall|a: u32| #[trigger] count_below(s, out@, a) == count_better(s.take(i as int + 1), day, a) by {
                    lemma_count_below_insert(s, before, p as int, i, a);
                    lemma_count_better_step(s, day, i as int, a);
                }
                assert forall|a: int, b: int| 0 <= a < b < out@.len() implies comes_before(s[#[trigger] out@[a] as int], s[#[trigger] out@[b] as int]) by {
                    if b < p {
                    } else if b == p {
                    } else if a < p {
                        assert(out@[b] == before[b - 1]);
                    } else if a == p {
                        assert(out@[b] == before[b - 1]);
                        assert(!comes_before(s[before[p as int] as int], s[i as int]));
                        if p as int + 1 < b {
                            assert(comes_before(s[before[p as int] as int], s[before[b - 1] as int]));
                        }
                    } else {
                        assert(out@[a] == before[a - 1]);
                        assert(out@[b] == before[b - 1]);
                    }
                }
                assert forall|j: usize| #[trigger] out@.contains(j) <==> (j < i + 1 && s[j as int].submitted_date == day) by {
                    if out@.contains(j) {
                        let q = choose|q: int| 0 <= q < out@.len() && out@[q] == j;
                        if q < p {
                            assert(before.contains(j));
                        } else if q > p {
                            assert(before[q - 1] == j);
                            assert(before.contains(j));
                        }
                    }
                    if j < i + 1 && s[j as int].submitted_date == day {
                        if j == i {
                            assert(out@[p as int] == i);
                        } else {
                            assert(before.contains(j));
                            let q = choose|q: int| 0 <= q < before.len() && before[q] == j;
                            if q < p {
                                assert(out@[q] == j);
                            } else {
                                assert(out@[q + 1] == j);
                            }
                        }
                    }
                }
                assert forall|x: int, y: int| 0 <= x < out@.len() && 0 <= y < out@.len() && x != y implies out@[x] != out@[y] by {
                    if x != p && y != p {
                        let bx = if x < p { x } else { x - 1 };
                        let by_ = if y < p { y } else { y - 1 };
                        assert(out@[x] == before[bx]);
                        assert(out@[y] == before[by_]);
                    } else if x == p {
                        let by_ = if y < p { y } else { y - 1 };
                        assert(out@[y] == before[by_]);
                    } else {
                        let bx = if x < p { x } else { x - 1 };
                        assert(out@[x] == before[bx]);
                    }
                }
            }
        } else {
            proof {
                assert forall|a: u32| #[trigger] count_below(s, out@, a) == count_better(s.take(i as int + 1), day, a) by {
                    lemma_count_better_step(s, day, i as int, a);
                }
            }
        }
        i = i + 1;
    }
    assert(s.take(i as int) =~= s);
    out
}

proof fn lemma_count_better_monotone(s: Seq<Submission>, day: Date, a1: u32, a2: u32)
    requires
        a1 <= a2,
    ensures
        count_better(s, day, a1) <= count_better(s, day, a2),
    decreases s.len(),
{
    if s.len() > 0 {
        lemma_count_better_monotone(s.drop_last(), day, a1, a2);
    }
}

proof fn lemma_count_better_positive(s: Seq<Submission>, day: Date, j: int, a: u32)
    requires
        0 <= j < s.len(),
        s[j].submitted_date == day,
        s[j].puzzle.attempts < a,
    ensures
        count_better(s, day, a) >= 1,
    decreases s.len(),
{
    if j < s.len() - 1 {
        assert(s.drop_last()[j] == s[j]);
        lemma_count_better_positive(s.drop_last(), day, j, a);
    }
}

/// The positions of the day's winners, the submissions of rank one, earliest
/// submission first.
pub fn winners(submissions: &Vec<Submission>, day: Date) -> (r: Vec<usize>)
    ensures
        r@.no_duplicates(),
        forall|j: usize| #[trigger]
            r@.contains(j) <==> (j < submissions.len() && submissions@[j as int].submitted_date == day
                && rank_of(submissions@, day, submissions@[j as int].puzzle.attempts) == 1),
        forall|a: int, b: int|
            0 <= a < b < r.len() ==> submissions@[#[trigger] r@[a] as int].submitted_at
                <= submissions@[#[trigger] r@[b] as int].submitted_at,
{
    let ghost s = submissions@;
    let ranked = rank(submissions, day);
    let ghost idx = ranked@.map_values(|e: RankedEntry| e.index);
    let mut out: Vec<usize> = Vec::new();
    let mut k: usize = 0;
    while k < ranked.len() && ranked[k].rank == 1
        invariant
            s == submissions@,
            idx == ranked@.map_values(|e: RankedEntry| e.index),
            lists_day(s, day, idx),
            in_board_order(s, idx),
            forall|q: int| 0 <= q < ranked.len() ==> #[trigger] ranked@[q].rank == rank_of(
                s,
                day,
                s[ranked@[q].index as int].puzzle.attempts,
            ),
            0 <= k <= ranked.len(),
            out@ == idx.take(k as int),
            forall|q: int| 0 <= q < k ==> #[trigger] ranked@[q].rank == 1,
        decreases ranked.len() - k,
    {
        out.push(ranked[k].index);
        assert(idx.take(k as int + 1) =~= idx.take(k as int).push(idx[k as int]));
        k = k + 1;
    }
    proof {
        assert forall|x: int, y: int| 0 <= x < out@.len() && 0 <= y < out@.len() && x != y implies out@[x] != out@[y] by {
            assert(out@[x] == idx[x] && out@[y] == idx[y]);
        }
        assert forall|j: usize| #[trigger] out@.contains(j) <==> (j < s.len() && s[j as int].submitted_date == day
            && rank_of(s, day, s[j as int].puzzle.attempts) == 1) by {
            if out@.contains(j) {
                let q = choose|q: int| 0 <= q < out@.len() && out@[q] == j;
                assert(idx[q] == j);
                assert(idx.contains(j));
                assert(ranked@[q].rank == 1);
            }
            if j < s.len() && s[j as int].submitted_date == day && rank_of(s, day, s[j as int].puzzle.attempts) == 1 {
                assert(idx.contains(j));
                let q = choose|q: int| 0 <= q < idx.len() && idx[q] == j;
                if q >= k {
                    assert(k < ranked.len());
                    if q > k {
                        assert(comes_before(s[idx[k as int] as int], s[idx[q] as int]));
                    }
                    lemma_count_better_monotone(s, day, s[idx[k as int] as int].puzzle.attempts, s[j as int].puzzle.attempts);
                    assert(ranked@[k as int].rank == 1);
                    assert(false);
                }
                assert(out@[q] == j);
            }
        }
        assert forall|a: int, b: int| 0 <= a < b < out@.len() implies s[#[trigger] out@[a] as int].submitted_at
            <= s[#[trigger] out@[b] as int].submitted_at by {
            assert(out@[a] == idx[a] && out@[b] == idx[b]);
            assert(comes_before(s[idx[a] as int], s[idx[b] as int]));
            assert(ranked@[b].rank == 1);
            assert(idx.contains(idx[a]));
            if s[idx[a] as int].puzzle.attempts < s[idx[b] as int].puzzle.attempts {
                lemma_count_better_positive(s, day, idx[a] as int, s[idx[b] as int].puzzle.attempts);
            }
        }
    }
    out
}

} // verus!
