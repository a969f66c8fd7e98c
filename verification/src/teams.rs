//! Rosters, leagues, and the opponent-matrix builder.
//!
//! Teams are integer indices; each league owns a contiguous index range. The
//! builder decides how many times each pair of teams plays, in three passes:
//! every in-league pair twice, then a minimum round of inter-league games
//! rotating through each league, then single games picked by a composite
//! tie-break key until every team reaches the cap or no eligible pair is left.

use vstd::prelude::*;

use crate::interleague_schedule::{
    lemma_sort_by_dist_members, sort_by_dist_s, sort_games_by_distance, sorted_by_dist, Game,
};
use crate::matrix::{
    create_matrix_with_dimension, mat_at, mat_at32, mat_inc, mat_square, mat_view,
    increment_matrix, get_matrix_val, Matrix,
};
use crate::pairs::{
    count_occ, count_pair_exact, count_pairs_with, lemma_count_concat,
    lemma_count_pair_exact_nonneg, lemma_count_pairs_with_nonneg, lemma_partners2_count,
    lemma_partners2_len, lemma_range_pairs_bounds,
    lemma_range_pairs_counts, pairs_in_range, partners2_s, range_pairs, range_pairs_s,
};

verus! {

pub struct League {
    pub name: String,
    pub team_index_range: (usize, usize),
}

impl League {
    pub open spec fn start(&self) -> int {
        self.team_index_range.0 as int
    }

    pub open spec fn stop(&self) -> int {
        self.team_index_range.1 as int
    }

    pub fn num_teams(&self) -> (n: usize)
        requires
            self.team_index_range.0 <= self.team_index_range.1,
        ensures
            n == self.stop() - self.start(),
    {
        self.team_index_range.1 - self.team_index_range.0
    }
}

pub struct Team {
    pub league_index: usize,
    pub num_games: i32,
    pub teams_against: Vec<usize>,
}

pub struct State {
    pub leagues: Vec<League>,
    pub teams: Vec<Team>,
}

/// Ghost value of one team: its league, its running game count (as an
/// unbounded integer), and its opponent list so far.
#[verifier::ext_equal]
pub ghost struct TeamV {
    pub league_index: usize,
    pub num_games: int,
    pub teams_against: Seq<usize>,
}

/// Ghost value of the builder's mutable state: all teams plus the team-game
/// count matrix, entries as unbounded integers.
#[verifier::ext_equal]
pub ghost struct TM {
    pub teams: Seq<TeamV>,
    pub mat: Seq<Seq<int>>,
}

pub open spec fn team_v(t: Team) -> TeamV {
    TeamV {
        league_index: t.league_index,
        num_games: t.num_games as int,
        teams_against: t.teams_against@,
    }
}

pub open spec fn teams_v(ts: Seq<Team>) -> Seq<TeamV> {
    ts.map_values(|t: Team| team_v(t))
}

/// The mathematical value of a count matrix, entries widened to `int`.
pub open spec fn matz(m: &Matrix) -> Seq<Seq<int>> {
    m@.map_values(|r: Vec<i32>| r@.map_values(|x: i32| x as int))
}

pub open spec fn mat_square_i(m: Seq<Seq<int>>, n: int) -> bool {
    m.len() == n && (forall|i: int| 0 <= i < n ==> #[trigger] m[i].len() == n)
}

/// The count stored for the unordered pair `(i, j)`.
pub open spec fn mat_at_i(m: Seq<Seq<int>>, i: int, j: int) -> int {
    if i <= j {
        m[i][j]
    } else {
        m[j][i]
    }
}

pub open spec fn mat_inc_i(m: Seq<Seq<int>>, i: int, j: int) -> Seq<Seq<int>> {
    let lo = if i <= j {
        i
    } else {
        j
    };
    let hi = if i <= j {
        j
    } else {
        i
    };
    m.update(lo, m[lo].update(hi, m[lo][hi] + 1))
}

pub open spec fn tm_v(teams: &Vec<Team>, m: &Matrix) -> TM {
    TM { teams: teams_v(teams@), mat: matz(m) }
}

/// One game recorded between `t0` and `t1`: both game counts rise by one,
/// each team appends the other to its opponent list, and the pair's matrix
/// count rises by one.
pub open spec fn add_game_v(tm: TM, t0: usize, t1: usize) -> TM {
    let a = tm.teams[t0 as int];
    let b = tm.teams[t1 as int];
    TM {
        teams: tm.teams.update(
            t0 as int,
            TeamV {
                league_index: a.league_index,
                num_games: a.num_games + 1,
                teams_against: a.teams_against.push(t1),
            },
        ).update(
            t1 as int,
            TeamV {
                league_index: b.league_index,
                num_games: b.num_games + 1,
                teams_against: b.teams_against.push(t0),
            },
        ),
        mat: mat_inc_i(tm.mat, t0 as int, t1 as int),
    }
}

/// Record one game between teams `ti0` and `ti1` (distinct): bump both
/// per-team counters, extend both opponent lists, and bump the pair's count
/// in the matrix.
pub fn add_game(teams: &mut Vec<Team>, teams_matrix: &mut Matrix, ti0: usize, ti1: usize)
    requires
        ti0 < old(teams)@.len(),
        ti1 < old(teams)@.len(),
        ti0 != ti1,
        mat_square(mat_view(old(teams_matrix)), old(teams)@.len() as int),
        old(teams_matrix)@.len() == old(teams)@.len(),
        old(teams)@[ti0 as int].num_games < i32::MAX,
        old(teams)@[ti1 as int].num_games < i32::MAX,
        mat_at(mat_view(old(teams_matrix)), ti0 as int, ti1 as int) < i32::MAX,
    ensures
        tm_v(final(teams), final(teams_matrix)) == add_game_v(
            tm_v(old(teams), old(teams_matrix)),
            ti0,
            ti1,
        ),
        final(teams)@.len() == old(teams)@.len(),
        final(teams_matrix)@.len() == old(teams_matrix)@.len(),
        mat_square(mat_view(final(teams_matrix)), final(teams)@.len() as int),
{
    let g0 = teams[ti0].num_games;
    teams[ti0].num_games = g0 + 1;
    teams[ti0].teams_against.push(ti1);

    let g1 = teams[ti1].num_games;
    teams[ti1].num_games = g1 + 1;
    teams[ti1].teams_against.push(ti0);

    increment_matrix(teams_matrix, ti0, ti1);
    proof {
        assert(tm_v(teams, teams_matrix).teams =~~= add_game_v(
            tm_v(old(teams), old(teams_matrix)),
            ti0,
            ti1,
        ).teams);
        let mo = mat_view(old(teams_matrix));
        let mn = mat_view(teams_matrix);
        let zo = matz(old(teams_matrix));
        let zn = matz(teams_matrix);
        let goal = mat_inc_i(zo, ti0 as int, ti1 as int);
        let n = old(teams_matrix)@.len() as int;
        assert(mn == mat_inc(mo, ti0 as int, ti1 as int));
        let lo = if ti0 <= ti1 { ti0 as int } else { ti1 as int };
        let hi = if ti0 <= ti1 { ti1 as int } else { ti0 as int };
        assert forall|i: int| 0 <= i < n implies #[trigger] zn[i] =~= goal[i] by {
            assert(zn[i] =~= teams_matrix@[i]@.map_values(|x: i32| x as int));
            assert forall|j: int| 0 <= j < mn[i].len() implies zn[i][j] == mn[i][j] as int by {}
            if i == lo {
                assert(mn[i] == mo[lo].update(hi, (mo[lo][hi] + 1) as i32));
                assert(mo[lo][hi] == zo[lo][hi]);
                assert(mo[lo][hi] < i32::MAX);
                assert(mn[i][hi] as int == zo[lo][hi] + 1);
                assert(goal[i] == zo[lo].update(hi, zo[lo][hi] + 1));
                assert forall|j: int| 0 <= j < zn[i].len() implies zn[i][j] == goal[i][j] by {
                    if j != hi {
                        assert(mn[i][j] == mo[i][j]);
                        assert(zo[i][j] == mo[i][j] as int);
                    }
                }
            } else {
                assert(mn[i] == mo[i]);
                assert forall|j: int| 0 <= j < zn[i].len() implies zn[i][j] == goal[i][j] by {
                    assert(zo[i][j] == mo[i][j] as int);
                }
            }
        }
        assert(tm_v(teams, teams_matrix).mat =~~= add_game_v(
            tm_v(old(teams), old(teams_matrix)),
            ti0,
            ti1,
        ).mat);
        assert(tm_v(teams, teams_matrix) =~~= add_game_v(
            tm_v(old(teams), old(teams_matrix)),
            ti0,
            ti1,
        ));
    }
}

/// Two games recorded for the pair (home and away).
pub open spec fn add2_v(tm: TM, t0: usize, t1: usize) -> TM {
    add_game_v(add_game_v(tm, t0, t1), t0, t1)
}

/// Two games recorded for each pair of `ps`, in order.
pub open spec fn fold_pairs2_v(tm: TM, ps: Seq<(usize, usize)>) -> TM
    decreases ps.len(),
{
    if ps.len() == 0 {
        tm
    } else {
        fold_pairs2_v(add2_v(tm, ps[0].0, ps[0].1), ps.drop_first())
    }
}

pub proof fn lemma_fold_pairs2_concat(tm: TM, p: Seq<(usize, usize)>, q: Seq<(usize, usize)>)
    ensures
        fold_pairs2_v(tm, p + q) == fold_pairs2_v(fold_pairs2_v(tm, p), q),
    decreases p.len(),
{
    if p.len() == 0 {
        assert(p + q =~= q);
    } else {
        assert((p + q).drop_first() =~= p.drop_first() + q);
        lemma_fold_pairs2_concat(add2_v(tm, p[0].0, p[0].1), p.drop_first(), q);
    }
}

pub proof fn lemma_fold_pairs2_push(tm: TM, p: Seq<(usize, usize)>, x: (usize, usize))
    ensures
        fold_pairs2_v(tm, p.push(x)) == add2_v(fold_pairs2_v(tm, p), x.0, x.1),
{
    lemma_fold_pairs2_concat(tm, p, seq![x]);
    assert(p.push(x) =~= p + seq![x]);
    assert(seq![x].drop_first() =~= Seq::<(usize, usize)>::empty());
    assert(seq![x][0] == x);
    let y = fold_pairs2_v(tm, p);
    assert(fold_pairs2_v(y, seq![x]) == fold_pairs2_v(add2_v(y, x.0, x.1), seq![x].drop_first()));
    assert(fold_pairs2_v(add2_v(y, x.0, x.1), Seq::<(usize, usize)>::empty()) == add2_v(y, x.0, x.1));
}

/// What a run of doubled pair games does to the builder state, pair by pair:
/// each team's count rises by two per pair it stands in, its opponent list
/// grows by its partners (each twice, in order), and each matrix count rises
/// by two per occurrence of its exact pair. Nothing else changes.
pub proof fn lemma_fold_pairs2_effect(tm: TM, ps: Seq<(usize, usize)>)
    requires
        mat_square_i(tm.mat, tm.teams.len() as int),
        pairs_in_range(ps, tm.teams.len() as int),
    ensures
        fold_pairs2_v(tm, ps).teams.len() == tm.teams.len(),
        mat_square_i(fold_pairs2_v(tm, ps).mat, tm.teams.len() as int),
        forall|t: usize|
            t < tm.teams.len() ==> #[trigger] fold_pairs2_v(tm, ps).teams[t as int].league_index
                == tm.teams[t as int].league_index,
        forall|t: usize|
            t < tm.teams.len() ==> #[trigger] fold_pairs2_v(tm, ps).teams[t as int].num_games
                == tm.teams[t as int].num_games + 2 * count_pairs_with(t, ps),
        forall|t: usize|
            t < tm.teams.len() ==> #[trigger] fold_pairs2_v(tm, ps).teams[t as int].teams_against
                == tm.teams[t as int].teams_against + partners2_s(t, ps),
        forall|a: usize, b: usize|
            a < tm.teams.len() && b < tm.teams.len() ==> #[trigger] mat_at_i(
                fold_pairs2_v(tm, ps).mat,
                a as int,
                b as int,
            ) == mat_at_i(tm.mat, a as int, b as int) + 2 * (count_pair_exact(a, b, ps)
                + count_pair_exact(b, a, ps)),
    decreases ps.len(),
{
    let n = tm.teams.len() as int;
    if ps.len() == 0 {
        assert forall|t: usize| t < n implies #[trigger] fold_pairs2_v(tm, ps).teams[t as int].teams_against
            == tm.teams[t as int].teams_against + partners2_s(t, ps) by {
            assert(tm.teams[t as int].teams_against + partners2_s(t, ps)
                =~= tm.teams[t as int].teams_against);
        }
    } else {
        let p = ps[0];
        let mid = add2_v(tm, p.0, p.1);
        assert(mid.teams.len() == n);
        assert(mat_square_i(mid.mat, n)) by {
            assert forall|i: int| 0 <= i < n implies #[trigger] mid.mat[i].len() == n by {}
        }
        assert(pairs_in_range(ps.drop_first(), n)) by {
            assert forall|k: int| 0 <= k < ps.drop_first().len() implies #[trigger] ps.drop_first()[k].0
                < ps.drop_first()[k].1 < n by {
                assert(ps.drop_first()[k] == ps[k + 1]);
            }
        }
        lemma_fold_pairs2_effect(mid, ps.drop_first());
        assert(fold_pairs2_v(tm, ps) == fold_pairs2_v(mid, ps.drop_first()));

        assert forall|t: usize| t < n implies #[trigger] fold_pairs2_v(tm, ps).teams[t as int].num_games
            == tm.teams[t as int].num_games + 2 * count_pairs_with(t, ps) by {
            assert(mid.teams[t as int].num_games == tm.teams[t as int].num_games + (if p.0 == t
                || p.1 == t {
                2int
            } else {
                0int
            }));
        }
        assert forall|t: usize| t < n implies #[trigger] fold_pairs2_v(tm, ps).teams[t as int].teams_against
            == tm.teams[t as int].teams_against + partners2_s(t, ps) by {
            let head = if p.0 == t {
                seq![p.1, p.1]
            } else if p.1 == t {
                seq![p.0, p.0]
            } else {
                Seq::<usize>::empty()
            };
            assert(mid.teams[t as int].teams_against =~= tm.teams[t as int].teams_against + head);
            assert(fold_pairs2_v(tm, ps).teams[t as int].teams_against
                == mid.teams[t as int].teams_against + partners2_s(t, ps.drop_first()));
            assert((tm.teams[t as int].teams_against + head) + partners2_s(t, ps.drop_first())
                =~= tm.teams[t as int].teams_against + (head + partners2_s(t, ps.drop_first())));
            assert(partners2_s(t, ps) == head + partners2_s(t, ps.drop_first()));
        }
        assert forall|a: usize, b: usize| a < n && b < n implies #[trigger] mat_at_i(
            fold_pairs2_v(tm, ps).mat,
            a as int,
            b as int,
        ) == mat_at_i(tm.mat, a as int, b as int) + 2 * (count_pair_exact(a, b, ps)
            + count_pair_exact(b, a, ps)) by {
            assert(mat_at_i(mid.mat, a as int, b as int) == mat_at_i(tm.mat, a as int, b as int)
                + (if (p.0 == a && p.1 == b) || (p.0 == b && p.1 == a) {
                2int
            } else {
                0int
            }));
        }
        assert forall|t: usize| t < n implies #[trigger] fold_pairs2_v(tm, ps).teams[t as int].league_index
            == tm.teams[t as int].league_index by {
            assert(mid.teams[t as int].league_index == tm.teams[t as int].league_index);
        }
    }
}

/// League ranges tile `[0, n)`: the first league starts at team `0`, each
/// league ends where the next begins, every league holds at least one team,
/// and the last league ends at `n`.
pub open spec fn leagues_wf(leagues: Seq<League>, n: int) -> bool {
    &&& (leagues.len() == 0 ==> n == 0)
    &&& (leagues.len() > 0 ==> leagues[0].start() == 0 && leagues[leagues.len() - 1].stop() == n)
    &&& (forall|i: int|
        0 <= i < leagues.len() - 1 ==> #[trigger] leagues[i].stop() == leagues[i + 1].start())
    &&& (forall|i: int| 0 <= i < leagues.len() ==> #[trigger] leagues[i].start() < leagues[i].stop())
}

/// Every team index carries the index of the league whose range holds it.
pub open spec fn team_leagues_ok(teams: Seq<TeamV>, leagues: Seq<League>) -> bool {
    forall|t: int|
        0 <= t < teams.len() ==> {
            let li = #[trigger] teams[t].league_index as int;
            li < leagues.len() && leagues[li].start() <= t < leagues[li].stop()
        }
}

pub proof fn lemma_league_mono(leagues: Seq<League>, i: int, j: int)
    requires
        forall|k: int|
            0 <= k < leagues.len() - 1 ==> #[trigger] leagues[k].stop() == leagues[k + 1].start(),
        forall|k: int| 0 <= k < leagues.len() ==> #[trigger] leagues[k].start() < leagues[k].stop(),
        0 <= i <= j < leagues.len(),
    ensures
        leagues[i].stop() <= leagues[j].stop(),
        i < j ==> leagues[i].stop() <= leagues[j].start(),
    decreases j - i,
{
    if i < j {
        lemma_league_mono(leagues, i, j - 1);
    }
}

/// Each league range lies inside `[0, n)`, and distinct leagues are disjoint.
pub proof fn lemma_league_bounds(leagues: Seq<League>, n: int)
    requires
        leagues_wf(leagues, n),
    ensures
        forall|i: int|
            0 <= i < leagues.len() ==> 0 <= #[trigger] leagues[i].start() < leagues[i].stop() <= n,
        forall|i: int, j: int|
            0 <= i < j < leagues.len() ==> #[trigger] leagues[i].stop()
                <= #[trigger] leagues[j].start(),
{
    assert forall|i: int| 0 <= i < leagues.len() implies 0 <= #[trigger] leagues[i].start()
        < leagues[i].stop() <= n by {
        lemma_league_mono(leagues, 0, i);
        lemma_league_mono(leagues, i, leagues.len() - 1);
    }
    assert forall|i: int, j: int| 0 <= i < j < leagues.len() implies #[trigger] leagues[i].stop()
        <= #[trigger] leagues[j].start() by {
        lemma_league_mono(leagues, i, j);
    }
}

/// The in-league pairs of the first `k` leagues, league by league.
pub open spec fn league_pairs_upto(leagues: Seq<League>, k: int) -> Seq<(usize, usize)>
    decreases k,
{
    if k <= 0 {
        Seq::empty()
    } else {
        league_pairs_upto(leagues, k - 1) + range_pairs_s(
            leagues[k - 1].start(),
            leagues[k - 1].stop(),
        )
    }
}

/// Counts over the in-league pairs of the first `k` leagues: a team whose
/// league is among them stands in one pair per other member of its league; a
/// given ordered pair occurs exactly once if it joins two distinct members of
/// one such league, never otherwise. All pairs are strictly ordered and in
/// range.
pub proof fn lemma_league_pairs_facts(
    leagues: Seq<League>,
    n: int,
    k: int,
    li: int,
    t: usize,
    la: int,
    a: usize,
    lb: int,
    b: usize,
)
    requires
        leagues_wf(leagues, n),
        n <= usize::MAX,
        0 <= k <= leagues.len(),
        0 <= li < leagues.len(),
        leagues[li].start() <= t < leagues[li].stop(),
        0 <= la < leagues.len(),
        leagues[la].start() <= a < leagues[la].stop(),
        0 <= lb < leagues.len(),
        leagues[lb].start() <= b < leagues[lb].stop(),
    ensures
        count_pairs_with(t, league_pairs_upto(leagues, k)) == if li < k {
            leagues[li].stop() - leagues[li].start() - 1
        } else {
            0
        },
        count_pair_exact(a, b, league_pairs_upto(leagues, k)) == if la == lb && la < k && a < b {
            1int
        } else {
            0int
        },
        pairs_in_range(league_pairs_upto(leagues, k), n),
    decreases k,
{
    lemma_league_bounds(leagues, n);
    lemma_league_pairs_in_range(leagues, n, k);
    if k <= 0 {
    } else {
        lemma_league_pairs_facts(leagues, n, k - 1, li, t, la, a, lb, b);
        let prev = league_pairs_upto(leagues, k - 1);
        let lo = leagues[k - 1].start();
        let hi = leagues[k - 1].stop();
        let row = range_pairs_s(lo, hi);
        lemma_count_concat(t, a, b, prev, row);
        lemma_range_pairs_counts(t, a, b, lo, hi);
        lemma_range_pairs_bounds(lo, hi);
        if li < k - 1 || li > k - 1 {
            assert(!(lo <= t < hi)) by {
                if li < k - 1 {
                    lemma_league_mono(leagues, li, k - 1);
                } else {
                    lemma_league_mono(leagues, k - 1, li);
                }
            }
        }
        if la != k - 1 {
            assert(!(lo <= a < hi)) by {
                if la < k - 1 {
                    lemma_league_mono(leagues, la, k - 1);
                } else {
                    lemma_league_mono(leagues, k - 1, la);
                }
            }
        }
        if lb != k - 1 {
            assert(!(lo <= b < hi)) by {
                if lb < k - 1 {
                    lemma_league_mono(leagues, lb, k - 1);
                } else {
                    lemma_league_mono(leagues, k - 1, lb);
                }
            }
        }
        lemma_league_pairs_in_range(leagues, n, k);
    }
}

/// The widened matrix view agrees with the stored one, cell by cell.
pub proof fn lemma_matz_links(m: &Matrix, n: int)
    requires
        m@.len() == n,
        mat_square(mat_view(m), n),
    ensures
        mat_square_i(matz(m), n),
        forall|i: int, j: int|
            0 <= i < n && 0 <= j < n ==> #[trigger] mat_at_i(matz(m), i, j) == mat_at(
                mat_view(m),
                i,
                j,
            ),
{
    assert forall|i: int| 0 <= i < n implies #[trigger] matz(m)[i].len() == n by {
        assert(matz(m)[i] == m@[i]@.map_values(|x: i32| x as int));
        assert(mat_view(m)[i] == m@[i]@);
        assert(mat_view(m)[i].len() == n);
    }
    assert forall|i: int, j: int| 0 <= i < n && 0 <= j < n implies #[trigger] mat_at_i(
        matz(m),
        i,
        j,
    ) == mat_at(mat_view(m), i, j) by {
        assert(matz(m)[i] == m@[i]@.map_values(|x: i32| x as int));
        assert(matz(m)[j] == m@[j]@.map_values(|x: i32| x as int));
        assert(mat_view(m)[i] == m@[i]@);
        assert(mat_view(m)[j] == m@[j]@);
        assert(mat_view(m)[i].len() == n);
        assert(mat_view(m)[j].len() == n);
        if i <= j {
            assert(matz(m)[i][j] == m@[i]@[j] as int);
        } else {
            assert(matz(m)[j][i] == m@[j]@[i] as int);
        }
    }
}

pub open spec fn league_size(leagues: Seq<League>, li: int) -> int {
    leagues[li].stop() - leagues[li].start()
}

/// All in-league pairs are strictly ordered team indices below `n`.
pub proof fn lemma_league_pairs_in_range(leagues: Seq<League>, n: int, k: int)
    requires
        leagues_wf(leagues, n),
        n <= usize::MAX,
        0 <= k <= leagues.len(),
    ensures
        pairs_in_range(league_pairs_upto(leagues, k), n),
    decreases k,
{
    lemma_league_bounds(leagues, n);
    if k > 0 {
        lemma_league_pairs_in_range(leagues, n, k - 1);
        let prev = league_pairs_upto(leagues, k - 1);
        let lo = leagues[k - 1].start();
        let hi = leagues[k - 1].stop();
        let row = range_pairs_s(lo, hi);
        lemma_range_pairs_bounds(lo, hi);
        assert(pairs_in_range(league_pairs_upto(leagues, k), n)) by {
            assert forall|idx: int| 0 <= idx < league_pairs_upto(leagues, k).len() implies
                #[trigger] league_pairs_upto(leagues, k)[idx].0
                < league_pairs_upto(leagues, k)[idx].1 < n by {
                if idx < prev.len() {
                    assert(league_pairs_upto(leagues, k)[idx] == prev[idx]);
                    assert(prev[idx].0 < prev[idx].1 < n);
                } else {
                    assert(league_pairs_upto(leagues, k)[idx] == row[idx - prev.len()]);
                    assert(0 <= idx - prev.len() < row.len());
                    assert(lo <= row[idx - prev.len()].0 < row[idx - prev.len()].1 < hi);
                    assert(hi <= n);
                }
            }
        }
    }
}

/// Every pair of the first `k` leagues' pair list joins two members of one of
/// those leagues.
pub proof fn lemma_league_pairs_member(leagues: Seq<League>, n: int, k: int, idx: int)
    requires
        leagues_wf(leagues, n),
        n <= usize::MAX,
        0 <= k <= leagues.len(),
        0 <= idx < league_pairs_upto(leagues, k).len(),
    ensures
        exists|li: int|
            0 <= li < k && leagues[li].start() <= #[trigger] league_pairs_upto(leagues, k)[idx].0
                && league_pairs_upto(leagues, k)[idx].0 < league_pairs_upto(leagues, k)[idx].1
                && league_pairs_upto(leagues, k)[idx].1 < leagues[li].stop(),
    decreases k,
{
    lemma_league_bounds(leagues, n);
    if k > 0 {
        let prev = league_pairs_upto(leagues, k - 1);
        let lo = leagues[k - 1].start();
        let hi = leagues[k - 1].stop();
        let row = range_pairs_s(lo, hi);
        if idx < prev.len() {
            lemma_league_pairs_member(leagues, n, k - 1, idx);
            let li = choose|li: int|
                0 <= li < k - 1 && leagues[li].start() <= prev[idx].0 && prev[idx].0 < prev[idx].1
                    && prev[idx].1 < leagues[li].stop();
            assert(league_pairs_upto(leagues, k)[idx] == prev[idx]);
            assert(0 <= li < k && leagues[li].start() <= league_pairs_upto(leagues, k)[idx].0
                && league_pairs_upto(leagues, k)[idx].0 < league_pairs_upto(leagues, k)[idx].1
                && league_pairs_upto(leagues, k)[idx].1 < leagues[li].stop());
        } else {
            lemma_range_pairs_bounds(lo, hi);
            assert(league_pairs_upto(leagues, k)[idx] == row[idx - prev.len()]);
            assert(lo <= row[idx - prev.len()].0 < row[idx - prev.len()].1 < hi);
            let li = k - 1;
            assert(0 <= li < k && leagues[li].start() <= league_pairs_upto(leagues, k)[idx].0
                && league_pairs_upto(leagues, k)[idx].0 < league_pairs_upto(leagues, k)[idx].1
                && league_pairs_upto(leagues, k)[idx].1 < leagues[li].stop());
        }
    }
}

/// First builder pass: every pair of teams of one league plays exactly twice.
///
/// On a fresh roster (all counters zero, empty opponent lists, zero matrix)
/// whose every league fits its mandatory in-league games under the cap, this
/// records, league by league and pair by pair in lexicographic order, two
/// games for each in-league pair. Afterwards each team has played exactly
/// twice against each of its league mates and nobody else, so every count is
/// exact and the cap holds.
pub fn assign_in_league_games(state: &mut State, teams_matrix: &mut Matrix, max_games: i32)
    requires
        old(state).teams@.len() == old(teams_matrix)@.len(),
        mat_square(mat_view(old(teams_matrix)), old(state).teams@.len() as int),
        leagues_wf(old(state).leagues@, old(state).teams@.len() as int),
        team_leagues_ok(teams_v(old(state).teams@), old(state).leagues@),
        forall|t: int|
            0 <= t < old(state).teams@.len() ==> #[trigger] old(state).teams@[t].num_games == 0,
        forall|t: int|
            0 <= t < old(state).teams@.len() ==> #[trigger] old(state).teams@[t].teams_against@.len() == 0,
        forall|i: int, j: int|
            0 <= i < old(state).teams@.len() && 0 <= j < old(state).teams@.len() ==> #[trigger] mat_at(
                mat_view(old(teams_matrix)),
                i,
                j,
            ) == 0,
        forall|li: int|
            0 <= li < old(state).leagues@.len() ==> 2 * (league_size(old(state).leagues@, li) - 1)
                <= max_games,
    ensures
        final(state).leagues == old(state).leagues,
        final(state).teams@.len() == old(state).teams@.len(),
        final(teams_matrix)@.len() == old(teams_matrix)@.len(),
        mat_square(mat_view(final(teams_matrix)), final(state).teams@.len() as int),
        tm_v(&final(state).teams, final(teams_matrix)) == fold_pairs2_v(
            tm_v(&old(state).teams, old(teams_matrix)),
            league_pairs_upto(old(state).leagues@, old(state).leagues@.len() as int),
        ),
        forall|t: int|
            0 <= t < old(state).teams@.len() ==> #[trigger] final(state).teams@[t].league_index
                == old(state).teams@[t].league_index,
        forall|t: int|
            0 <= t < old(state).teams@.len() ==> #[trigger] final(state).teams@[t].num_games as int
                == 2 * (league_size(old(state).leagues@, old(state).teams@[t].league_index as int)
                - 1),
        forall|t: int|
            0 <= t < old(state).teams@.len() ==> 0 <= #[trigger] final(state).teams@[t].num_games
                <= max_games,
        forall|t: usize, x: usize|
            t < old(state).teams@.len() && x < old(state).teams@.len() && t != x ==> #[trigger] count_occ(
                x,
                final(state).teams@[t as int].teams_against@,
            ) == if old(state).teams@[t as int].league_index == old(state).teams@[x as int].league_index {
                2int
            } else {
                0int
            },
{
    let ghost tm0 = tm_v(&state.teams, teams_matrix);
    let ghost lgs = state.leagues@;
    let n = state.teams.len();
    let ghost big = league_pairs_upto(lgs, lgs.len() as int);

    let mut all_pairs: Vec<(usize, usize)> = Vec::new();
    let mut li: usize = 0;
    while li < state.leagues.len()
        invariant
            *state == *old(state),
            *teams_matrix == *old(teams_matrix),
            lgs == state.leagues@,
            li <= lgs.len(),
            all_pairs@ == league_pairs_upto(lgs, li as int),
        decreases lgs.len() - li,
    {
        let lo = state.leagues[li].team_index_range.0;
        let hi = state.leagues[li].team_index_range.1;
        let mut ps = range_pairs(lo, hi);
        proof {
            assert(league_pairs_upto(lgs, li + 1) == league_pairs_upto(lgs, li as int)
                + range_pairs_s(lgs[li as int].start(), lgs[li as int].stop()));
        }
        all_pairs.append(&mut ps);
        li = li + 1;
    }
    proof {
        assert(all_pairs@ == big);
        lemma_league_bounds(lgs, n as int);
        lemma_matz_links(teams_matrix, n as int);
        assert(tm0.mat == matz(teams_matrix));
    }

    let mut k: usize = 0;
    while k < all_pairs.len()
        invariant
            state.leagues == old(state).leagues,
            lgs == state.leagues@,
            all_pairs@ == big,
            big == league_pairs_upto(lgs, lgs.len() as int),
            k <= all_pairs@.len(),
            n == old(state).teams@.len(),
            state.teams@.len() == n,
            teams_matrix@.len() == n,
            mat_square(mat_view(teams_matrix), n as int),
            tm0 == tm_v(&old(state).teams, old(teams_matrix)),
            tm_v(&state.teams, teams_matrix) == fold_pairs2_v(tm0, all_pairs@.take(k as int)),
            leagues_wf(lgs, n as int),
            forall|t: int| 0 <= t < n ==> #[trigger] tm0.teams[t].num_games == 0,
            forall|t: int| 0 <= t < n ==> #[trigger] tm0.teams[t].teams_against.len() == 0,
            forall|i: int, j: int|
                0 <= i < n && 0 <= j < n ==> #[trigger] mat_at_i(tm0.mat, i, j) == 0,
            forall|lj: int|
                0 <= lj < lgs.len() ==> 2 * (league_size(lgs, lj) - 1) <= max_games,
            mat_square_i(tm0.mat, n as int),
            tm0.teams.len() == n,
        decreases all_pairs@.len() - k,
    {
        let pr = all_pairs[k];
        let a = pr.0;
        let b = pr.1;
        let ghost aps = all_pairs@;
        let ghost pre = aps.take(k as int);
        let ghost cur = tm_v(&state.teams, teams_matrix);
        proof {
            lemma_league_pairs_member(lgs, n as int, lgs.len() as int, k as int);
            let lp = choose|lp: int|
                0 <= lp < lgs.len() && lgs[lp].start() <= aps[k as int].0 && aps[k as int].0
                    < aps[k as int].1 && aps[k as int].1 < lgs[lp].stop();
            lemma_league_bounds(lgs, n as int);
            assert(a < b < n);
            lemma_league_pairs_facts(lgs, n as int, lgs.len() as int, lp, a, lp, a, lp, b);
            lemma_league_pairs_facts(lgs, n as int, lgs.len() as int, lp, b, lp, b, lp, a);
            let suf = aps.skip(k as int);
            assert(aps =~= pre + suf);
            lemma_count_concat(a, a, b, pre, suf);
            lemma_count_concat(b, b, a, pre, suf);
            lemma_count_pairs_with_nonneg(a, suf.drop_first());
            lemma_count_pairs_with_nonneg(b, suf.drop_first());
            lemma_count_pairs_with_nonneg(a, pre);
            lemma_count_pairs_with_nonneg(b, pre);
            lemma_count_pair_exact_nonneg(a, b, suf.drop_first());
            lemma_count_pair_exact_nonneg(b, a, suf.drop_first());
            lemma_count_pair_exact_nonneg(a, b, pre);
            lemma_count_pair_exact_nonneg(b, a, pre);
            assert(suf[0] == pr);
            assert(count_pairs_with(a, suf) >= 1);
            assert(count_pairs_with(b, suf) >= 1);
            assert(count_pair_exact(a, b, suf) >= 1);
            assert(count_pairs_with(a, pre) <= league_size(lgs, lp) - 2);
            assert(count_pairs_with(b, pre) <= league_size(lgs, lp) - 2);
            assert(count_pair_exact(a, b, pre) == 0);
            assert(count_pair_exact(b, a, pre) == 0);
            lemma_fold_pairs2_effect(tm0, pre);
            assert(cur.teams[a as int].num_games <= 2 * (league_size(lgs, lp) - 2));
            assert(cur.teams[b as int].num_games <= 2 * (league_size(lgs, lp) - 2));
            assert(2 * (league_size(lgs, lp) - 1) <= max_games);
            assert(mat_at_i(cur.mat, a as int, b as int) == 0);
            assert(state.teams@[a as int].num_games as int == cur.teams[a as int].num_games) by {
                assert(cur.teams[a as int] == team_v(state.teams@[a as int]));
            }
            assert(state.teams@[b as int].num_games as int == cur.teams[b as int].num_games) by {
                assert(cur.teams[b as int] == team_v(state.teams@[b as int]));
            }
            lemma_matz_links(teams_matrix, n as int);
            assert(mat_at(mat_view(teams_matrix), a as int, b as int) == mat_at_i(
                cur.mat,
                a as int,
                b as int,
            ));
        }
        add_game(&mut state.teams, teams_matrix, a, b);
        proof {
            let mid = tm_v(&state.teams, teams_matrix);
            assert(mid == add_game_v(cur, a, b));
            assert(mid.teams[a as int].num_games == cur.teams[a as int].num_games + 1);
            assert(mid.teams[b as int].num_games == cur.teams[b as int].num_games + 1);
            assert(mat_at_i(mid.mat, a as int, b as int) == 1);
            assert(state.teams@[a as int].num_games as int == mid.teams[a as int].num_games) by {
                assert(mid.teams[a as int] == team_v(state.teams@[a as int]));
            }
            assert(state.teams@[b as int].num_games as int == mid.teams[b as int].num_games) by {
                assert(mid.teams[b as int] == team_v(state.teams@[b as int]));
            }
            assert(mat_square(mat_view(teams_matrix), n as int));
            lemma_matz_links(teams_matrix, n as int);
            assert(mat_at(mat_view(teams_matrix), a as int, b as int) == mat_at_i(
                mid.mat,
                a as int,
                b as int,
            ));
        }
        add_game(&mut state.teams, teams_matrix, a, b);
        proof {
            assert(tm_v(&state.teams, teams_matrix) == add2_v(cur, a, b));
            lemma_fold_pairs2_push(tm0, pre, pr);
            assert(aps.take(k + 1) =~= pre.push(pr));
        }
        k = k + 1;
    }
    proof {
        assert(all_pairs@.take(all_pairs@.len() as int) =~= big);
        let fin = tm_v(&state.teams, teams_matrix);
        lemma_league_pairs_in_range(lgs, n as int, lgs.len() as int);
        lemma_fold_pairs2_effect(tm0, big);
        assert forall|t: int| 0 <= t < n implies #[trigger] state.teams@[t].num_games as int == 2
            * (league_size(lgs, old(state).teams@[t].league_index as int) - 1) && 0 <= state.teams@[t].num_games <= max_games && state.teams@[t].league_index == old(state).teams@[t].league_index by {
            let tu = old(state).teams@[t].league_index;
            let li0 = tu as int;
            assert(teams_v(old(state).teams@)[t].league_index as int == li0);
            assert(0 <= li0 < lgs.len() && lgs[li0].start() <= t < lgs[li0].stop());
            lemma_league_pairs_facts(lgs, n as int, lgs.len() as int, li0, t as usize, li0, t as usize, li0, t as usize);
            assert(fin.teams[t].num_games == tm0.teams[t].num_games + 2 * count_pairs_with(
                t as usize,
                big,
            ));
            assert(fin.teams[t].num_games == 2 * (league_size(lgs, li0) - 1));
            assert(state.teams@[t].num_games as int == fin.teams[t].num_games);
            assert(fin.teams[t].league_index == tm0.teams[t].league_index);
        }
        assert forall|t: int| 0 <= t < n implies #[trigger] state.teams@[t].league_index == old(
            state,
        ).teams@[t].league_index by {
            assert(fin.teams[t] == team_v(state.teams@[t]));
            assert(fin.teams[t].league_index == tm0.teams[t].league_index);
            assert(tm0.teams[t] == team_v(old(state).teams@[t]));
        }
        assert forall|t: usize, x: usize| t < n && x < n && t != x implies #[trigger] count_occ(
            x,
            state.teams@[t as int].teams_against@,
        ) == if old(state).teams@[t as int].league_index == old(state).teams@[x as int].league_index {
            2int
        } else {
            0int
        } by {
            let lt = old(state).teams@[t as int].league_index as int;
            let lx = old(state).teams@[x as int].league_index as int;
            assert(teams_v(old(state).teams@)[t as int].league_index as int == lt);
            assert(teams_v(old(state).teams@)[x as int].league_index as int == lx);
            assert(0 <= lt < lgs.len() && lgs[lt].start() <= t < lgs[lt].stop());
            assert(0 <= lx < lgs.len() && lgs[lx].start() <= x < lgs[lx].stop());
            assert(fin.teams[t as int].teams_against == tm0.teams[t as int].teams_against
                + partners2_s(t, big));
            assert(tm0.teams[t as int].teams_against + partners2_s(t, big) =~= partners2_s(
                t,
                big,
            ));
            lemma_partners2_count(t, x, big);
            lemma_league_pairs_facts(lgs, n as int, lgs.len() as int, lt, t, lt, t, lx, x);
            lemma_league_pairs_facts(lgs, n as int, lgs.len() as int, lx, x, lx, x, lt, t);
            assert(state.teams@[t as int].teams_against@ == fin.teams[t as int].teams_against);
        }
    }
}

/// Builder-state well-formedness: a square matrix of non-negative pair
/// counts, each bounded by the game count of either participant, every
/// team's count between zero and the cap, and each opponent list exactly as
/// long as its team's game count.
pub open spec fn tm_wf(tm: TM, max: int) -> bool {
    let n = tm.teams.len() as int;
    &&& mat_square_i(tm.mat, n)
    &&& (forall|t: int| 0 <= t < n ==> 0 <= #[trigger] tm.teams[t].num_games <= max)
    &&& (forall|t: int|
        0 <= t < n ==> #[trigger] tm.teams[t].teams_against.len() == tm.teams[t].num_games)
    &&& (forall|a: int, b: int| 0 <= a < n && 0 <= b < n ==> #[trigger] mat_at_i(tm.mat, a, b) >= 0)
    &&& (forall|a: int, b: int|
        0 <= a < n && 0 <= b < n && a != b ==> #[trigger] mat_at_i(tm.mat, a, b) <= tm.teams[a].num_games)
}

/// Recording one game between two distinct teams below the cap keeps the
/// builder state well-formed and changes no league index.
pub proof fn lemma_add_game_wf(tm: TM, t0: usize, t1: usize, max: int)
    requires
        tm_wf(tm, max),
        t0 < tm.teams.len(),
        t1 < tm.teams.len(),
        t0 != t1,
        tm.teams[t0 as int].num_games < max,
        tm.teams[t1 as int].num_games < max,
    ensures
        tm_wf(add_game_v(tm, t0, t1), max),
        add_game_v(tm, t0, t1).teams.len() == tm.teams.len(),
        forall|t: int|
            0 <= t < tm.teams.len() ==> #[trigger] add_game_v(tm, t0, t1).teams[t].league_index
                == tm.teams[t].league_index,
{
    let n = tm.teams.len() as int;
    let r = add_game_v(tm, t0, t1);
    assert(mat_square_i(r.mat, n)) by {
        assert forall|i: int| 0 <= i < n implies #[trigger] r.mat[i].len() == n by {}
    }
    assert forall|a: int, b: int| 0 <= a < n && 0 <= b < n implies #[trigger] mat_at_i(r.mat, a, b)
        >= 0 by {
        assert(mat_at_i(tm.mat, a, b) >= 0);
    }
    assert forall|a: int, b: int| 0 <= a < n && 0 <= b < n && a != b implies #[trigger] mat_at_i(
        r.mat,
        a,
        b,
    ) <= r.teams[a].num_games by {
        assert(mat_at_i(tm.mat, a, b) <= tm.teams[a].num_games);
    }
}

/// The cursor of league `li` after one assignment: the next team of the
/// league, wrapping back to the league's first team past its end.
pub open spec fn advance_cursor(cursors: Seq<usize>, li: int, leagues: Seq<League>) -> Seq<usize> {
    if cursors[li] + 1 >= leagues[li].stop() {
        cursors.update(li, leagues[li].team_index_range.0)
    } else {
        cursors.update(li, (cursors[li] + 1) as usize)
    }
}

/// Each league's cursor points at a team of that league.
pub open spec fn cursors_wf(cursors: Seq<usize>, leagues: Seq<League>) -> bool {
    &&& cursors.len() == leagues.len()
    &&& (forall|li: int|
        0 <= li < leagues.len() ==> leagues[li].start() <= #[trigger] cursors[li] < leagues[li].stop())
}

/// One round of minimum inter-league games for the league pair `(li0, li1)`:
/// up to `count` games between the teams the two cursors point at, advancing
/// both cursors after each game, stopping early as soon as either current
/// team has reached the cap.
pub open spec fn pass2_round_v(
    tm: TM,
    cursors: Seq<usize>,
    leagues: Seq<League>,
    li0: int,
    li1: int,
    count: nat,
    max: i32,
) -> (TM, Seq<usize>)
    decreases count,
{
    if count == 0 {
        (tm, cursors)
    } else {
        let t0 = cursors[li0];
        let t1 = cursors[li1];
        if tm.teams[t0 as int].num_games == max || tm.teams[t1 as int].num_games == max {
            (tm, cursors)
        } else {
            pass2_round_v(
                add_game_v(tm, t0, t1),
                advance_cursor(advance_cursor(cursors, li0, leagues), li1, leagues),
                leagues,
                li0,
                li1,
                (count - 1) as nat,
                max,
            )
        }
    }
}

/// The whole second pass over a list of league pairs: for each pair in
/// order, one round of `min(team counts)` games.
pub open spec fn pass2_all_v(
    tm: TM,
    cursors: Seq<usize>,
    combos: Seq<Game>,
    leagues: Seq<League>,
    max: i32,
) -> (TM, Seq<usize>)
    decreases combos.len(),
{
    if combos.len() == 0 {
        (tm, cursors)
    } else {
        let c = combos[0];
        let count = if league_size(leagues, c.ti0 as int) <= league_size(leagues, c.ti1 as int) {
            league_size(leagues, c.ti0 as int)
        } else {
            league_size(leagues, c.ti1 as int)
        };
        let r = pass2_round_v(tm, cursors, leagues, c.ti0 as int, c.ti1 as int, count as nat, max);
        pass2_all_v(r.0, r.1, combos.drop_first(), leagues, max)
    }
}

/// The league pairs with their distances, in lexicographic league order.
pub open spec fn league_combos_s(leagues: Seq<League>, ldm: Seq<Seq<i32>>) -> Seq<Game> {
    range_pairs_s(0, leagues.len() as int).map_values(
        |p: (usize, usize)| Game { ti0: p.0, ti1: p.1, distance: mat_at32(ldm, p.0 as int, p.1 as int) },
    )
}

/// The initial cursor of every league: its first team.
pub open spec fn league_starts_s(leagues: Seq<League>) -> Seq<usize> {
    Seq::new(leagues.len(), |i: int| leagues[i].team_index_range.0)
}

/// One cap-checked round of games between the league pair `(li0, li1)`,
/// rotating both cursors, exactly as `pass2_round_v` folds it.
fn run_league_round(
    state: &mut State,
    teams_matrix: &mut Matrix,
    leagues_next_index: &mut Vec<usize>,
    li0: usize,
    li1: usize,
    num_games: usize,
    max_games: i32,
)
    requires
        old(state).teams@.len() == old(teams_matrix)@.len(),
        leagues_wf(old(state).leagues@, old(state).teams@.len() as int),
        li0 < li1 < old(state).leagues@.len(),
        cursors_wf(old(leagues_next_index)@, old(state).leagues@),
        tm_wf(tm_v(&old(state).teams, old(teams_matrix)), max_games as int),
        mat_square(mat_view(old(teams_matrix)), old(state).teams@.len() as int),
    ensures
        final(state).leagues == old(state).leagues,
        final(state).teams@.len() == old(state).teams@.len(),
        final(teams_matrix)@.len() == old(teams_matrix)@.len(),
        cursors_wf(final(leagues_next_index)@, old(state).leagues@),
        tm_wf(tm_v(&final(state).teams, final(teams_matrix)), max_games as int),
        mat_square(mat_view(final(teams_matrix)), final(state).teams@.len() as int),
        pass2_round_v(
            tm_v(&old(state).teams, old(teams_matrix)),
            old(leagues_next_index)@,
            old(state).leagues@,
            li0 as int,
            li1 as int,
            num_games as nat,
            max_games,
        ) == (tm_v(&final(state).teams, final(teams_matrix)), final(leagues_next_index)@),
        forall|t: int|
            0 <= t < old(state).teams@.len() ==> #[trigger] final(state).teams@[t].league_index
                == old(state).teams@[t].league_index,
{
    let ghost tm_enter = tm_v(&state.teams, teams_matrix);
    let ghost cur_enter = leagues_next_index@;
    let ghost lgs = state.leagues@;
    let ghost n = state.teams@.len();
    proof {
        lemma_league_bounds(lgs, n as int);
    }
    let mut j: usize = 0;
    loop
        invariant
            state.leagues == old(state).leagues,
            lgs == state.leagues@,
            n == old(state).teams@.len(),
            state.teams@.len() == n,
            teams_matrix@.len() == n,
            leagues_wf(lgs, n as int),
            li0 < li1 < lgs.len(),
            j <= num_games,
            cursors_wf(leagues_next_index@, lgs),
            tm_wf(tm_v(&state.teams, teams_matrix), max_games as int),
            mat_square(mat_view(teams_matrix), n as int),
            pass2_round_v(
                tm_enter,
                cur_enter,
                lgs,
                li0 as int,
                li1 as int,
                num_games as nat,
                max_games,
            ) == pass2_round_v(
                tm_v(&state.teams, teams_matrix),
                leagues_next_index@,
                lgs,
                li0 as int,
                li1 as int,
                (num_games - j) as nat,
                max_games,
            ),
            tm_enter == tm_v(&old(state).teams, old(teams_matrix)),
            cur_enter == old(leagues_next_index)@,
            forall|t: int|
                0 <= t < n ==> #[trigger] state.teams@[t].league_index == old(state).teams@[t].league_index,
        ensures
            pass2_round_v(
                tm_enter,
                cur_enter,
                lgs,
                li0 as int,
                li1 as int,
                num_games as nat,
                max_games,
            ) == (tm_v(&state.teams, teams_matrix), leagues_next_index@),
            state.leagues == old(state).leagues,
            state.teams@.len() == n,
            teams_matrix@.len() == n,
            cursors_wf(leagues_next_index@, lgs),
            tm_wf(tm_v(&state.teams, teams_matrix), max_games as int),
            mat_square(mat_view(teams_matrix), n as int),
            forall|t: int|
                0 <= t < n ==> #[trigger] state.teams@[t].league_index == old(state).teams@[t].league_index,
        decreases num_games - j,
    {
        if j == num_games {
            break;
        }
        let t0 = leagues_next_index[li0];
        let t1 = leagues_next_index[li1];
        proof {
            assert(lgs[li0 as int].start() <= t0 < lgs[li0 as int].stop());
            assert(lgs[li1 as int].start() <= t1 < lgs[li1 as int].stop());
            lemma_league_mono(lgs, li0 as int, li1 as int);
            lemma_league_bounds(lgs, n as int);
            assert(t0 < t1);
            assert(t1 < n);
        }
        if state.teams[t0].num_games == max_games || state.teams[t1].num_games == max_games {
            proof {
                let cur = tm_v(&state.teams, teams_matrix);
                assert(cur.teams[t0 as int] == team_v(state.teams@[t0 as int]));
                assert(cur.teams[t1 as int] == team_v(state.teams@[t1 as int]));
                assert(pass2_round_v(
                    cur,
                    leagues_next_index@,
                    lgs,
                    li0 as int,
                    li1 as int,
                    (num_games - j) as nat,
                    max_games,
                ) == (cur, leagues_next_index@));
            }
            break;
        }
        proof {
            let cur = tm_v(&state.teams, teams_matrix);
            assert(cur.teams[t0 as int] == team_v(state.teams@[t0 as int]));
            assert(cur.teams[t1 as int] == team_v(state.teams@[t1 as int]));
            assert(cur.teams[t0 as int].num_games < max_games);
            assert(cur.teams[t1 as int].num_games < max_games);
            assert(mat_at_i(cur.mat, t0 as int, t1 as int) <= cur.teams[t0 as int].num_games);
            lemma_matz_links(teams_matrix, n as int);
            assert(mat_at(mat_view(teams_matrix), t0 as int, t1 as int) < i32::MAX);
            lemma_add_game_wf(cur, t0, t1, max_games as int);
        }
        let ghost cur = tm_v(&state.teams, teams_matrix);
        let ghost cur_cursors = leagues_next_index@;
        add_game(&mut state.teams, teams_matrix, t0, t1);
        let c0 = leagues_next_index[li0];
        if c0 + 1 >= state.leagues[li0].team_index_range.1 {
            let s0 = state.leagues[li0].team_index_range.0;
            leagues_next_index[li0] = s0;
        } else {
            leagues_next_index[li0] = c0 + 1;
        }
        let c1 = leagues_next_index[li1];
        if c1 + 1 >= state.leagues[li1].team_index_range.1 {
            let s1 = state.leagues[li1].team_index_range.0;
            leagues_next_index[li1] = s1;
        } else {
            leagues_next_index[li1] = c1 + 1;
        }
        proof {
            assert(leagues_next_index@ =~= advance_cursor(
                advance_cursor(cur_cursors, li0 as int, lgs),
                li1 as int,
                lgs,
            ));
            assert(tm_v(&state.teams, teams_matrix) == add_game_v(cur, t0, t1));
            assert(pass2_round_v(
                cur,
                cur_cursors,
                lgs,
                li0 as int,
                li1 as int,
                (num_games - j) as nat,
                max_games,
            ) == pass2_round_v(
                tm_v(&state.teams, teams_matrix),
                leagues_next_index@,
                lgs,
                li0 as int,
                li1 as int,
                (num_games - j - 1) as nat,
                max_games,
            ));
            lemma_add_game_wf(cur, t0, t1, max_games as int);
            assert forall|t: int| 0 <= t < n implies #[trigger] state.teams@[t].league_index
                == old(state).teams@[t].league_index by {
                assert(tm_v(&state.teams, teams_matrix).teams[t] == team_v(state.teams@[t]));
                assert(add_game_v(cur, t0, t1).teams[t].league_index == cur.teams[t].league_index);
            }
        }
        j = j + 1;
    }
}

/// Second builder pass: minimum inter-league games.
///
/// League pairs are taken in ascending order of their travel distance (ties
/// in the lexicographic pair order); each pair plays `min(team counts)`
/// games, rotating each league's cursor so opponents spread evenly, and a
/// pair's round stops as soon as either current team has reached the cap.
/// The result is exactly the fold of those rounds, and the cap still holds
/// for every team.
pub fn assign_minimum_interleague_games(
    state: &mut State,
    teams_matrix: &mut Matrix,
    league_distance_matrix: &Matrix,
    max_games: i32,
)
    requires
        old(state).teams@.len() == old(teams_matrix)@.len(),
        leagues_wf(old(state).leagues@, old(state).teams@.len() as int),
        tm_wf(tm_v(&old(state).teams, old(teams_matrix)), max_games as int),
        mat_square(mat_view(old(teams_matrix)), old(state).teams@.len() as int),
        league_distance_matrix@.len() == old(state).leagues@.len(),
        mat_square(mat_view(league_distance_matrix), old(state).leagues@.len() as int),
    ensures
        final(state).leagues == old(state).leagues,
        final(state).teams@.len() == old(state).teams@.len(),
        final(teams_matrix)@.len() == old(teams_matrix)@.len(),
        mat_square(mat_view(final(teams_matrix)), final(state).teams@.len() as int),
        tm_v(&final(state).teams, final(teams_matrix)) == pass2_all_v(
            tm_v(&old(state).teams, old(teams_matrix)),
            league_starts_s(old(state).leagues@),
            sort_by_dist_s(league_combos_s(old(state).leagues@, mat_view(league_distance_matrix))),
            old(state).leagues@,
            max_games,
        ).0,
        tm_wf(tm_v(&final(state).teams, final(teams_matrix)), max_games as int),
        forall|t: int|
            0 <= t < old(state).teams@.len() ==> #[trigger] final(state).teams@[t].league_index
                == old(state).teams@[t].league_index,
{
    let ghost tm0 = tm_v(&state.teams, teams_matrix);
    let ghost lgs = state.leagues@;
    let n = state.teams.len();
    let nl = state.leagues.len();
    let ghost ldm = mat_view(league_distance_matrix);
    proof {
        lemma_league_bounds(lgs, n as int);
    }

    let lp = range_pairs(0, nl);
    let mut combos: Vec<Game> = Vec::new();
    let mut i: usize = 0;
    proof {
        lemma_range_pairs_bounds(0, nl as int);
    }
    while i < lp.len()
        invariant
            *state == *old(state),
            *teams_matrix == *old(teams_matrix),
            lgs == state.leagues@,
            nl == lgs.len(),
            ldm == mat_view(league_distance_matrix),
            league_distance_matrix@.len() == nl,
            mat_square(ldm, nl as int),
            lp@ == range_pairs_s(0, nl as int),
            pairs_in_range(lp@, nl as int),
            i <= lp@.len(),
            combos@ == league_combos_s(lgs, ldm).take(i as int),
        decreases lp@.len() - i,
    {
        let pr = lp[i];
        proof {
            assert(lp@[i as int].0 < lp@[i as int].1 < nl);
        }
        let d = get_matrix_val(league_distance_matrix, pr.0, pr.1);
        combos.push(Game { ti0: pr.0, ti1: pr.1, distance: d });
        proof {
            assert(combos@ =~= league_combos_s(lgs, ldm).take(i + 1));
        }
        i = i + 1;
    }
    proof {
        assert(combos@ =~= league_combos_s(lgs, ldm));
    }
    let sorted = sort_games_by_distance(&combos);
    let ghost full = sort_by_dist_s(league_combos_s(lgs, ldm));
    proof {
        lemma_sort_by_dist_members(combos@);
        assert forall|k: int| 0 <= k < full.len() implies #[trigger] full[k].ti0 < full[k].ti1
            < nl by {
            assert(full.contains(full[k]));
            let j = choose|j: int| 0 <= j < combos@.len() && combos@[j] == full[k];
            assert(combos@[j].ti0 == range_pairs_s(0, nl as int)[j].0);
            assert(combos@[j].ti1 == range_pairs_s(0, nl as int)[j].1);
        }
    }

    let mut leagues_next_index: Vec<usize> = Vec::new();
    let mut li: usize = 0;
    while li < state.leagues.len()
        invariant
            *state == *old(state),
            *teams_matrix == *old(teams_matrix),
            lgs == state.leagues@,
            li <= lgs.len(),
            leagues_next_index@.len() == li,
            forall|k: int|
                0 <= k < li ==> #[trigger] leagues_next_index@[k] == lgs[k].team_index_range.0,
        decreases lgs.len() - li,
    {
        leagues_next_index.push(state.leagues[li].team_index_range.0);
        li = li + 1;
    }
    proof {
        lemma_league_bounds(lgs, n as int);
        assert(leagues_next_index@ =~= league_starts_s(lgs));
        assert(cursors_wf(leagues_next_index@, lgs));
    }

    let ghost target = pass2_all_v(tm0, league_starts_s(lgs), full, lgs, max_games);
    proof {
        assert(full.skip(0) =~= full);
    }
    let mut ci: usize = 0;
    while ci < sorted.len()
        invariant
            state.leagues == old(state).leagues,
            lgs == state.leagues@,
            nl == lgs.len(),
            n == old(state).teams@.len(),
            state.teams@.len() == n,
            teams_matrix@.len() == n,
            leagues_wf(lgs, n as int),
            ci <= sorted@.len(),
            sorted@ == full,
            forall|k: int| 0 <= k < full.len() ==> #[trigger] full[k].ti0 < full[k].ti1 < nl,
            cursors_wf(leagues_next_index@, lgs),
            tm_wf(tm_v(&state.teams, teams_matrix), max_games as int),
            mat_square(mat_view(teams_matrix), n as int),
            target == pass2_all_v(
                tm_v(&state.teams, teams_matrix),
                leagues_next_index@,
                full.skip(ci as int),
                lgs,
                max_games,
            ),
            forall|t: int|
                0 <= t < n ==> #[trigger] state.teams@[t].league_index == old(state).teams@[t].league_index,
        decreases sorted@.len() - ci,
    {
        let c = sorted[ci];
        let li0 = c.ti0;
        let li1 = c.ti1;
        proof {
            assert(full[ci as int].ti0 < full[ci as int].ti1 < nl);
        }
        let num_games = if state.leagues[li0].num_teams() <= state.leagues[li1].num_teams() {
            state.leagues[li0].num_teams()
        } else {
            state.leagues[li1].num_teams()
        };
        let ghost tm_enter = tm_v(&state.teams, teams_matrix);
        let ghost cur_enter = leagues_next_index@;
        run_league_round(state, teams_matrix, &mut leagues_next_index, li0, li1, num_games, max_games);
        proof {
            assert(full.skip(ci as int)[0] == c);
            assert(full.skip(ci as int).drop_first() =~= full.skip(ci + 1));
            assert(num_games as int == if league_size(lgs, li0 as int) <= league_size(
                lgs,
                li1 as int,
            ) {
                league_size(lgs, li0 as int)
            } else {
                league_size(lgs, li1 as int)
            });
            assert(pass2_all_v(tm_enter, cur_enter, full.skip(ci as int), lgs, max_games)
                == pass2_all_v(
                tm_v(&state.teams, teams_matrix),
                leagues_next_index@,
                full.skip(ci + 1),
                lgs,
                max_games,
            ));
        }
        ci = ci + 1;
    }
    proof {
        assert(full.skip(full.len() as int) =~= Seq::<Game>::empty());
        assert(target == (tm_v(&state.teams, teams_matrix), leagues_next_index@));
    }
}

/// How many opponents in `lst` belong to league `lg`.
pub open spec fn count_league_opps(teams: Seq<TeamV>, lst: Seq<usize>, lg: usize) -> int
    decreases lst.len(),
{
    if lst.len() == 0 {
        0
    } else {
        (if lst[0] < teams.len() && teams[lst[0] as int].league_index == lg {
            1int
        } else {
            0int
        }) + count_league_opps(teams, lst.drop_first(), lg)
    }
}

/// The composite tie-break key of a candidate pair, in descending priority:
/// fewest games already played between the exact pair, then fewest games
/// against the other team's league, then the higher combined total of games
/// so far, then the greater inter-league distance.
pub open spec fn cand_key(tm: TM, ldm: Seq<Seq<i32>>, a: usize, b: usize) -> (int, int, int, int) {
    (
        mat_at_i(tm.mat, a as int, b as int),
        count_league_opps(tm.teams, tm.teams[a as int].teams_against, tm.teams[b as int].league_index)
            + count_league_opps(
            tm.teams,
            tm.teams[b as int].teams_against,
            tm.teams[a as int].league_index,
        ),
        tm.teams[a as int].num_games + tm.teams[b as int].num_games,
        mat_at(ldm, tm.teams[a as int].league_index as int, tm.teams[b as int].league_index as int),
    )
}

/// Strictly better under the composite ordering: first two components
/// ascending, last two descending.
pub open spec fn key_better(k1: (int, int, int, int), k2: (int, int, int, int)) -> bool {
    ||| k1.0 < k2.0
    ||| (k1.0 == k2.0 && k1.1 < k2.1)
    ||| (k1.0 == k2.0 && k1.1 == k2.1 && k1.2 > k2.2)
    ||| (k1.0 == k2.0 && k1.1 == k2.1 && k1.2 == k2.2 && k1.3 > k2.3)
}

pub open spec fn eligible(tm: TM, max: i32, a: usize, b: usize) -> bool {
    tm.teams[a as int].num_games != max && tm.teams[b as int].num_games != max
}

/// The best eligible candidate over the rest of the pair list, starting from
/// `cur`: a pair replaces the running best only when strictly better, so the
/// lexicographically first pair wins every full tie.
pub open spec fn best_s(
    tm: TM,
    ldm: Seq<Seq<i32>>,
    max: i32,
    ps: Seq<(usize, usize)>,
    cur: Option<(usize, usize)>,
) -> Option<(usize, usize)>
    decreases ps.len(),
{
    if ps.len() == 0 {
        cur
    } else {
        let p = ps[0];
        let take_it = eligible(tm, max, p.0, p.1) && (cur is None || key_better(
            cand_key(tm, ldm, p.0, p.1),
            cand_key(tm, ldm, cur->Some_0.0, cur->Some_0.1),
        ));
        best_s(
            tm,
            ldm,
            max,
            ps.drop_first(),
            if take_it {
                Some(p)
            } else {
                cur
            },
        )
    }
}

/// The pair the third pass would record next, scanning every team pair in
/// lexicographic order.
pub open spec fn pass3_best(tm: TM, ldm: Seq<Seq<i32>>, max: i32, n: int) -> Option<
    (usize, usize),
> {
    best_s(tm, ldm, max, range_pairs_s(0, n), None)
}

/// One step of the third pass: record the best candidate's game, or stand
/// still when no pair is eligible.
pub open spec fn pass3_step(tm: TM, ldm: Seq<Seq<i32>>, max: i32, n: int) -> TM {
    match pass3_best(tm, ldm, max, n) {
        Option::None => tm,
        Option::Some(p) => add_game_v(tm, p.0, p.1),
    }
}

/// `k` steps of the third pass.
pub open spec fn pass3_iter(tm: TM, ldm: Seq<Seq<i32>>, max: i32, n: int, k: nat) -> TM
    decreases k,
{
    if k == 0 {
        tm
    } else {
        pass3_step(pass3_iter(tm, ldm, max, n, (k - 1) as nat), ldm, max, n)
    }
}

/// No eligible pair is left: the third pass is finished.
pub open spec fn pass3_stuck(tm: TM, ldm: Seq<Seq<i32>>, max: i32, n: int) -> bool {
    pass3_best(tm, ldm, max, n) is None
}

/// What the best-candidate scan can return: only an eligible pair, drawn
/// from the list or from the starting candidate.
proof fn lemma_best_s_props(
    tm: TM,
    ldm: Seq<Seq<i32>>,
    max: i32,
    ps: Seq<(usize, usize)>,
    cur: Option<(usize, usize)>,
)
    ensures
        best_s(tm, ldm, max, ps, cur) is None ==> cur is None,
        best_s(tm, ldm, max, ps, cur) is Some ==> best_s(tm, ldm, max, ps, cur) == cur
            || ps.contains(best_s(tm, ldm, max, ps, cur)->Some_0),
        (best_s(tm, ldm, max, ps, cur) is Some && best_s(tm, ldm, max, ps, cur) != cur) ==> eligible(
            tm,
            max,
            best_s(tm, ldm, max, ps, cur)->Some_0.0,
            best_s(tm, ldm, max, ps, cur)->Some_0.1,
        ),
    decreases ps.len(),
{
    if ps.len() > 0 {
        let p = ps[0];
        let take_it = eligible(tm, max, p.0, p.1) && (cur is None || key_better(
            cand_key(tm, ldm, p.0, p.1),
            cand_key(tm, ldm, cur->Some_0.0, cur->Some_0.1),
        ));
        let next = if take_it {
            Some(p)
        } else {
            cur
        };
        lemma_best_s_props(tm, ldm, max, ps.drop_first(), next);
        let r = best_s(tm, ldm, max, ps, cur);
        if r is Some && r != cur {
            if r == next && take_it {
                assert(ps[0] == r->Some_0);
                assert(ps.contains(r->Some_0));
            } else {
                assert(ps.drop_first().contains(r->Some_0));
                let k = choose|k: int|
                    0 <= k < ps.drop_first().len() && ps.drop_first()[k] == r->Some_0;
                assert(ps[k + 1] == r->Some_0);
            }
        }
    }
}

/// The total head-room below the cap across all teams.
pub open spec fn slack(teams: Seq<TeamV>, max: int) -> int
    decreases teams.len(),
{
    if teams.len() == 0 {
        0
    } else {
        (max - teams[0].num_games) + slack(teams.drop_first(), max)
    }
}

proof fn lemma_slack_nonneg(teams: Seq<TeamV>, max: int)
    requires
        forall|t: int| 0 <= t < teams.len() ==> #[trigger] teams[t].num_games <= max,
    ensures
        slack(teams, max) >= 0,
    decreases teams.len(),
{
    if teams.len() > 0 {
        assert(forall|t: int|
            0 <= t < teams.drop_first().len() ==> #[trigger] teams.drop_first()[t].num_games
                <= max);
        lemma_slack_nonneg(teams.drop_first(), max);
    }
}

proof fn lemma_slack_update(teams: Seq<TeamV>, max: int, t: int, tv: TeamV)
    requires
        0 <= t < teams.len(),
        tv.num_games == teams[t].num_games + 1,
    ensures
        slack(teams.update(t, tv), max) == slack(teams, max) - 1,
    decreases teams.len(),
{
    if t == 0 {
        assert(teams.update(t, tv).drop_first() =~= teams.drop_first());
    } else {
        assert(teams.update(t, tv).drop_first() =~= teams.drop_first().update(t - 1, tv));
        lemma_slack_update(teams.drop_first(), max, t - 1, tv);
    }
}

/// Recording one game between distinct teams uses up two units of head-room.
proof fn lemma_slack_add_game(tm: TM, max: int, t0: usize, t1: usize)
    requires
        t0 < tm.teams.len(),
        t1 < tm.teams.len(),
        t0 != t1,
    ensures
        slack(add_game_v(tm, t0, t1).teams, max) == slack(tm.teams, max) - 2,
{
    let a = tm.teams[t0 as int];
    let b = tm.teams[t1 as int];
    let ts1 = tm.teams.update(
        t0 as int,
        TeamV {
            league_index: a.league_index,
            num_games: a.num_games + 1,
            teams_against: a.teams_against.push(t1),
        },
    );
    lemma_slack_update(
        tm.teams,
        max,
        t0 as int,
        TeamV {
            league_index: a.league_index,
            num_games: a.num_games + 1,
            teams_against: a.teams_against.push(t1),
        },
    );
    lemma_slack_update(
        ts1,
        max,
        t1 as int,
        TeamV {
            league_index: b.league_index,
            num_games: b.num_games + 1,
            teams_against: b.teams_against.push(t0),
        },
    );
    assert(add_game_v(tm, t0, t1).teams == ts1.update(
        t1 as int,
        TeamV {
            league_index: b.league_index,
            num_games: b.num_games + 1,
            teams_against: b.teams_against.push(t0),
        },
    ));
}

proof fn lemma_pass3_iter_add(tm: TM, ldm: Seq<Seq<i32>>, max: i32, n: int, a: nat, b: nat)
    ensures
        pass3_iter(tm, ldm, max, n, a + b) == pass3_iter(pass3_iter(tm, ldm, max, n, a), ldm, max, n, b),
    decreases b,
{
    if b > 0 {
        lemma_pass3_iter_add(tm, ldm, max, n, a, (b - 1) as nat);
        assert(a + b == (a + (b - 1) as nat) + 1);
    }
}

proof fn lemma_pass3_stuck_absorbs(tm: TM, ldm: Seq<Seq<i32>>, max: i32, n: int, k: nat)
    requires
        pass3_stuck(tm, ldm, max, n),
    ensures
        pass3_iter(tm, ldm, max, n, k) == tm,
    decreases k,
{
    if k > 0 {
        lemma_pass3_stuck_absorbs(tm, ldm, max, n, (k - 1) as nat);
    }
}

/// Law: the third pass is deterministic. Whenever two runs of it from the
/// same builder state each reach a state with no eligible pair left, they
/// have reached the same state, whatever number of steps each took.
pub proof fn lemma_pass3_deterministic(
    tm: TM,
    ldm: Seq<Seq<i32>>,
    max: i32,
    n: int,
    k1: nat,
    k2: nat,
)
    requires
        pass3_stuck(pass3_iter(tm, ldm, max, n, k1), ldm, max, n),
        pass3_stuck(pass3_iter(tm, ldm, max, n, k2), ldm, max, n),
    ensures
        pass3_iter(tm, ldm, max, n, k1) == pass3_iter(tm, ldm, max, n, k2),
{
    if k1 <= k2 {
        lemma_pass3_iter_add(tm, ldm, max, n, k1, (k2 - k1) as nat);
        lemma_pass3_stuck_absorbs(pass3_iter(tm, ldm, max, n, k1), ldm, max, n, (k2 - k1) as nat);
    } else {
        lemma_pass3_iter_add(tm, ldm, max, n, k2, (k1 - k2) as nat);
        lemma_pass3_stuck_absorbs(pass3_iter(tm, ldm, max, n, k2), ldm, max, n, (k1 - k2) as nat);
    }
}

/// How many opponents already faced from league `lg` (entries out of range
/// count for nothing; the builder never produces any).
fn count_league_games(teams: &Vec<Team>, list: &Vec<usize>, lg: usize) -> (c: usize)
    ensures
        c as int == count_league_opps(teams_v(teams@), list@, lg),
        c <= list@.len(),
{
    let ghost tv = teams_v(teams@);
    let mut c: usize = 0;
    let mut j: usize = 0;
    proof {
        assert(list@.skip(0) =~= list@);
    }
    while j < list.len()
        invariant
            j <= list@.len(),
            c <= j,
            tv == teams_v(teams@),
            count_league_opps(tv, list@, lg) == c + count_league_opps(tv, list@.skip(j as int), lg),
        decreases list@.len() - j,
    {
        proof {
            assert(list@.skip(j as int)[0] == list@[j as int]);
            assert(list@.skip(j as int).drop_first() =~= list@.skip(j + 1));
        }
        let ti = list[j];
        if ti < teams.len() {
            proof {
                assert(tv[ti as int] == team_v(teams@[ti as int]));
            }
            if teams[ti].league_index == lg {
                c = c + 1;
            }
        }
        j = j + 1;
    }
    proof {
        assert(list@.skip(list@.len() as int) =~= Seq::<usize>::empty());
    }
    c
}

/// Scan every team pair in lexicographic order and keep the strictly best
/// eligible candidate under the composite tie-break key.
fn find_best(
    teams: &Vec<Team>,
    teams_matrix: &Matrix,
    league_distance_matrix: &Matrix,
    max_games: i32,
    pairs: &Vec<(usize, usize)>,
) -> (r: Option<(usize, usize)>)
    requires
        teams@.len() == teams_matrix@.len(),
        mat_square(mat_view(teams_matrix), teams@.len() as int),
        pairs_in_range(pairs@, teams@.len() as int),
        mat_square(mat_view(league_distance_matrix), league_distance_matrix@.len() as int),
        forall|t: int|
            0 <= t < teams@.len() ==> #[trigger] teams@[t].league_index
                < league_distance_matrix@.len(),
    ensures
        r == best_s(
            tm_v(teams, teams_matrix),
            mat_view(league_distance_matrix),
            max_games,
            pairs@,
            None,
        ),
{
    let ghost tm = tm_v(teams, teams_matrix);
    let ghost ldm = mat_view(league_distance_matrix);
    let n = teams.len();
    proof {
        lemma_matz_links(teams_matrix, n as int);
        assert(pairs@.skip(0) =~= pairs@);
    }
    let mut best: Option<(usize, usize)> = None;
    let mut bk0: i32 = 0;
    let mut bk1: u128 = 0;
    let mut bk2: i64 = 0;
    let mut bk3: i32 = 0;
    let mut i: usize = 0;
    while i < pairs.len()
        invariant
            i <= pairs@.len(),
            n == teams@.len(),
            tm == tm_v(teams, teams_matrix),
            ldm == mat_view(league_distance_matrix),
            teams@.len() == teams_matrix@.len(),
            mat_square(mat_view(teams_matrix), n as int),
            pairs_in_range(pairs@, n as int),
            mat_square(ldm, league_distance_matrix@.len() as int),
            forall|t: int|
                0 <= t < n ==> #[trigger] teams@[t].league_index < league_distance_matrix@.len(),
            best_s(tm, ldm, max_games, pairs@.skip(i as int), best) == best_s(
                tm,
                ldm,
                max_games,
                pairs@,
                None,
            ),
            best is Some ==> {
                let p = best->Some_0;
                &&& p.0 < p.1 < n
                &&& eligible(tm, max_games, p.0, p.1)
                &&& bk0 as int == cand_key(tm, ldm, p.0, p.1).0
                &&& bk1 as int == cand_key(tm, ldm, p.0, p.1).1
                &&& bk2 as int == cand_key(tm, ldm, p.0, p.1).2
                &&& bk3 as int == cand_key(tm, ldm, p.0, p.1).3
            },
        decreases pairs@.len() - i,
    {
        proof {
            assert(pairs@[i as int].0 < pairs@[i as int].1 < n);
            assert(pairs@.skip(i as int)[0] == pairs@[i as int]);
            assert(pairs@.skip(i as int).drop_first() =~= pairs@.skip(i + 1));
        }
        let pr = pairs[i];
        let a = pr.0;
        let b = pr.1;
        proof {
            assert(tm.teams[a as int] == team_v(teams@[a as int]));
            assert(tm.teams[b as int] == team_v(teams@[b as int]));
        }
        if teams[a].num_games != max_games && teams[b].num_games != max_games {
            let ga = get_matrix_val(teams_matrix, a, b);
            let ta = &teams[a];
            let tb = &teams[b];
            let c0 = count_league_games(teams, &ta.teams_against, tb.league_index);
            let c1 = count_league_games(teams, &tb.teams_against, ta.league_index);
            let lg: u128 = c0 as u128 + c1 as u128;
            let comb: i64 = ta.num_games as i64 + tb.num_games as i64;
            let dist = get_matrix_val(league_distance_matrix, ta.league_index, tb.league_index);
            proof {
                assert(ga as int == cand_key(tm, ldm, a, b).0);
                assert(lg as int == cand_key(tm, ldm, a, b).1);
                assert(comb as int == cand_key(tm, ldm, a, b).2);
                assert(dist as int == cand_key(tm, ldm, a, b).3);
            }
            let take_it = match best {
                Option::None => true,
                Option::Some(_) => ga < bk0 || (ga == bk0 && (lg < bk1 || (lg == bk1 && (comb
                    > bk2 || (comb == bk2 && dist > bk3))))),
            };
            proof {
                if best is Some {
                    let q = best->Some_0;
                    assert(take_it == key_better(
                        cand_key(tm, ldm, a, b),
                        cand_key(tm, ldm, q.0, q.1),
                    ));
                }
                assert(eligible(tm, max_games, a, b));
            }
            if take_it {
                best = Some((a, b));
                bk0 = ga;
                bk1 = lg;
                bk2 = comb;
                bk3 = dist;
            }
        } else {
            proof {
                assert(!eligible(tm, max_games, a, b));
            }
        }
        i = i + 1;
    }
    proof {
        assert(pairs@.skip(pairs@.len() as int) =~= Seq::<(usize, usize)>::empty());
    }
    best
}

/// Third builder pass: remaining single games.
///
/// Repeatedly scan every team pair whose two teams are both below the cap
/// and record one game for the best pair under the composite tie-break key
/// (the lexicographically first pair on a full tie), until no eligible pair
/// is left. The result is exactly some number of those deterministic steps,
/// ending in a state where no pair is eligible, and the cap still holds.
pub fn assign_remaining_games(
    state: &mut State,
    teams_matrix: &mut Matrix,
    league_distance_matrix: &Matrix,
    max_games: i32,
)
    requires
        old(state).teams@.len() == old(teams_matrix)@.len(),
        mat_square(mat_view(old(teams_matrix)), old(state).teams@.len() as int),
        tm_wf(tm_v(&old(state).teams, old(teams_matrix)), max_games as int),
        mat_square(mat_view(league_distance_matrix), league_distance_matrix@.len() as int),
        forall|t: int|
            0 <= t < old(state).teams@.len() ==> #[trigger] old(state).teams@[t].league_index
                < league_distance_matrix@.len(),
    ensures
        final(state).leagues == old(state).leagues,
        final(state).teams@.len() == old(state).teams@.len(),
        final(teams_matrix)@.len() == old(teams_matrix)@.len(),
        mat_square(mat_view(final(teams_matrix)), final(state).teams@.len() as int),
        tm_wf(tm_v(&final(state).teams, final(teams_matrix)), max_games as int),
        forall|t: int|
            0 <= t < old(state).teams@.len() ==> #[trigger] final(state).teams@[t].league_index
                == old(state).teams@[t].league_index,
        exists|k: nat|
            tm_v(&final(state).teams, final(teams_matrix)) == pass3_iter(
                tm_v(&old(state).teams, old(teams_matrix)),
                mat_view(league_distance_matrix),
                max_games,
                old(state).teams@.len() as int,
                k,
            ),
        pass3_stuck(
            tm_v(&final(state).teams, final(teams_matrix)),
            mat_view(league_distance_matrix),
            max_games,
            old(state).teams@.len() as int,
        ),
{
    let ghost tm0 = tm_v(&state.teams, teams_matrix);
    let ghost ldm = mat_view(league_distance_matrix);
    let n = state.teams.len();
    let pairs = range_pairs(0, n);
    let ghost mut steps: nat = 0nat;
    proof {
        lemma_range_pairs_bounds(0, n as int);
        lemma_slack_nonneg(tm0.teams, max_games as int);
    }
    loop
        invariant
            state.leagues == old(state).leagues,
            n == old(state).teams@.len(),
            state.teams@.len() == n,
            teams_matrix@.len() == n,
            mat_square(mat_view(teams_matrix), n as int),
            tm_wf(tm_v(&state.teams, teams_matrix), max_games as int),
            pairs@ == range_pairs_s(0, n as int),
            pairs_in_range(pairs@, n as int),
            mat_square(ldm, league_distance_matrix@.len() as int),
            ldm == mat_view(league_distance_matrix),
            forall|t: int|
                0 <= t < n ==> #[trigger] state.teams@[t].league_index == old(state).teams@[t].league_index,
            forall|t: int|
                0 <= t < n ==> #[trigger] old(state).teams@[t].league_index
                    < league_distance_matrix@.len(),
            tm0 == tm_v(&old(state).teams, old(teams_matrix)),
            tm_v(&state.teams, teams_matrix) == pass3_iter(tm0, ldm, max_games, n as int, steps),
            slack(tm_v(&state.teams, teams_matrix).teams, max_games as int) >= 0,
        ensures
            state.leagues == old(state).leagues,
            state.teams@.len() == n,
            teams_matrix@.len() == n,
            mat_square(mat_view(teams_matrix), n as int),
            tm_wf(tm_v(&state.teams, teams_matrix), max_games as int),
            forall|t: int|
                0 <= t < n ==> #[trigger] state.teams@[t].league_index == old(state).teams@[t].league_index,
            exists|k: nat|
                tm_v(&state.teams, teams_matrix) == pass3_iter(tm0, ldm, max_games, n as int, k),
            pass3_stuck(tm_v(&state.teams, teams_matrix), ldm, max_games, n as int),
        decreases slack(tm_v(&state.teams, teams_matrix).teams, max_games as int),
    {
        let ghost cur = tm_v(&state.teams, teams_matrix);
        proof {
            assert forall|t: int| 0 <= t < n implies #[trigger] state.teams@[t].league_index
                < league_distance_matrix@.len() by {}
        }
        let best = find_best(&state.teams, teams_matrix, league_distance_matrix, max_games, &pairs);
        proof {
            lemma_best_s_props(cur, ldm, max_games, pairs@, None);
        }
        match best {
            Option::None => {
                proof {
                    assert(pass3_stuck(cur, ldm, max_games, n as int));
                    assert(exists|k: nat|
                        cur == pass3_iter(tm0, ldm, max_games, n as int, k)) by {
                        assert(cur == pass3_iter(tm0, ldm, max_games, n as int, steps));
                    }
                }
                break;
            },
            Option::Some(p) => {
                let a = p.0;
                let b = p.1;
                proof {
                    assert(pairs@.contains(p));
                    let j = choose|j: int| 0 <= j < pairs@.len() && pairs@[j] == p;
                    assert(pairs@[j].0 < pairs@[j].1 < n);
                    assert(a < b < n);
                    assert(eligible(cur, max_games, a, b));
                    assert(cur.teams[a as int] == team_v(state.teams@[a as int]));
                    assert(cur.teams[b as int] == team_v(state.teams@[b as int]));
                    assert(cur.teams[a as int].num_games < max_games);
                    assert(cur.teams[b as int].num_games < max_games);
                    assert(mat_at_i(cur.mat, a as int, b as int) <= cur.teams[a as int].num_games);
                    lemma_matz_links(teams_matrix, n as int);
                    assert(mat_at(mat_view(teams_matrix), a as int, b as int) < i32::MAX);
                    lemma_add_game_wf(cur, a, b, max_games as int);
                    lemma_slack_add_game(cur, max_games as int, a, b);
                }
                add_game(&mut state.teams, teams_matrix, a, b);
                proof {
                    steps = steps + 1;
                    assert(pass3_best(cur, ldm, max_games, n as int) == Some(p));
                    assert(pass3_step(cur, ldm, max_games, n as int) == add_game_v(cur, a, b));
                    assert(tm_v(&state.teams, teams_matrix) == pass3_iter(
                        tm0,
                        ldm,
                        max_games,
                        n as int,
                        steps,
                    ));
                    lemma_slack_nonneg(tm_v(&state.teams, teams_matrix).teams, max_games as int);
                    assert forall|t: int| 0 <= t < n implies #[trigger] state.teams@[t].league_index
                        == old(state).teams@[t].league_index by {
                        assert(tm_v(&state.teams, teams_matrix).teams[t] == team_v(
                            state.teams@[t],
                        ));
                        assert(add_game_v(cur, a, b).teams[t].league_index == cur.teams[t].league_index);
                    }
                }
            },
        }
    }
}

/// An all-zero count matrix over `n` teams, as unbounded integers.
pub open spec fn zero_mat_i(n: int) -> Seq<Seq<int>> {
    Seq::new(n as nat, |i: int| Seq::new(n as nat, |j: int| 0int))
}

/// The builder state after the first two passes: all in-league pairs twice,
/// then the minimum inter-league rounds in distance order.
pub open spec fn builder_prefix_v(tm0: TM, leagues: Seq<League>, ldm: Seq<Seq<i32>>, max: i32) -> TM {
    pass2_all_v(
        fold_pairs2_v(tm0, league_pairs_upto(leagues, leagues.len() as int)),
        league_starts_s(leagues),
        sort_by_dist_s(league_combos_s(leagues, ldm)),
        leagues,
        max,
    ).0
}

/// Law: the opponent-matrix builder is deterministic. Any two final builder
/// states reached from the same starting state — each after some number of
/// third-pass steps and each with no eligible pair left — are equal, so equal
/// rosters, distances and cap always give equal matrices and game counts.
pub proof fn lemma_builder_deterministic(
    base: TM,
    ldm: Seq<Seq<i32>>,
    max: i32,
    n: int,
    r1: TM,
    r2: TM,
)
    requires
        exists|k: nat| r1 == pass3_iter(base, ldm, max, n, k),
        pass3_stuck(r1, ldm, max, n),
        exists|k: nat| r2 == pass3_iter(base, ldm, max, n, k),
        pass3_stuck(r2, ldm, max, n),
    ensures
        r1 == r2,
{
    let k1 = choose|k: nat| r1 == pass3_iter(base, ldm, max, n, k);
    let k2 = choose|k: nat| r2 == pass3_iter(base, ldm, max, n, k);
    lemma_pass3_deterministic(base, ldm, max, n, k1, k2);
}

/// The whole opponent-matrix builder: run the three passes in order over a
/// fresh roster and return the team-game count matrix.
///
/// The final state is exactly some number of third-pass steps on top of the
/// first two passes' fold, with no eligible pair left — which pins it down
/// uniquely (`lemma_builder_deterministic`) — and no team's game count ever
/// exceeds `max_games`.
pub fn get_teams_to_play_against(
    state: &mut State,
    league_distance_matrix: &Matrix,
    max_games: i32,
) -> (teams_matrix: Matrix)
    requires
        leagues_wf(old(state).leagues@, old(state).teams@.len() as int),
        team_leagues_ok(teams_v(old(state).teams@), old(state).leagues@),
        forall|t: int|
            0 <= t < old(state).teams@.len() ==> #[trigger] old(state).teams@[t].num_games == 0,
        forall|t: int|
            0 <= t < old(state).teams@.len() ==> #[trigger] old(state).teams@[t].teams_against@.len() == 0,
        forall|li: int|
            0 <= li < old(state).leagues@.len() ==> 2 * (league_size(old(state).leagues@, li) - 1)
                <= max_games,
        league_distance_matrix@.len() == old(state).leagues@.len(),
        mat_square(mat_view(league_distance_matrix), old(state).leagues@.len() as int),
    ensures
        final(state).leagues == old(state).leagues,
        final(state).teams@.len() == old(state).teams@.len(),
        teams_matrix@.len() == old(state).teams@.len(),
        mat_square(mat_view(&teams_matrix), old(state).teams@.len() as int),
        tm_wf(tm_v(&final(state).teams, &teams_matrix), max_games as int),
        forall|t: int|
            0 <= t < old(state).teams@.len() ==> 0 <= #[trigger] final(state).teams@[t].num_games
                <= max_games,
        forall|t: int|
            0 <= t < old(state).teams@.len() ==> #[trigger] final(state).teams@[t].teams_against@.len() == final(state).teams@[t].num_games,
        forall|t: int|
            0 <= t < old(state).teams@.len() ==> #[trigger] final(state).teams@[t].league_index
                == old(state).teams@[t].league_index,
        forall|t: int|
            0 <= t < old(state).teams@.len() ==> #[trigger] final(state).teams@[t].league_index
                < old(state).leagues@.len(),
        exists|k: nat|
            tm_v(&final(state).teams, &teams_matrix) == pass3_iter(
                builder_prefix_v(
                    TM {
                        teams: teams_v(old(state).teams@),
                        mat: zero_mat_i(old(state).teams@.len() as int),
                    },
                    old(state).leagues@,
                    mat_view(league_distance_matrix),
                    max_games,
                ),
                mat_view(league_distance_matrix),
                max_games,
                old(state).teams@.len() as int,
                k,
            ),
        pass3_stuck(
            tm_v(&final(state).teams, &teams_matrix),
            mat_view(league_distance_matrix),
            max_games,
            old(state).teams@.len() as int,
        ),
{
    let ghost lgs = state.leagues@;
    let n = state.teams.len();
    let ghost ldm = mat_view(league_distance_matrix);
    let mut teams_matrix = create_matrix_with_dimension(n);
    proof {
        lemma_matz_links(&teams_matrix, n as int);
        assert forall|i: int| 0 <= i < n implies #[trigger] matz(&teams_matrix)[i] =~= zero_mat_i(
            n as int,
        )[i] by {
            assert(matz(&teams_matrix)[i] == teams_matrix@[i]@.map_values(|x: i32| x as int));
            assert(mat_view(&teams_matrix)[i] == teams_matrix@[i]@);
            assert forall|j: int| 0 <= j < n implies matz(&teams_matrix)[i][j] == 0int by {
                assert(mat_view(&teams_matrix)[i][j] == 0i32);
            }
        }
        assert(tm_v(&state.teams, &teams_matrix).mat =~~= zero_mat_i(n as int));
        lemma_league_bounds(lgs, n as int);
    }
    let ghost tm0 = tm_v(&state.teams, &teams_matrix);
    proof {
        assert(tm0 =~~= TM { teams: teams_v(old(state).teams@), mat: zero_mat_i(n as int) });
    }
    let ghost base = builder_prefix_v(
        TM { teams: teams_v(old(state).teams@), mat: zero_mat_i(n as int) },
        lgs,
        ldm,
        max_games,
    );

    proof {
        assert(state.teams@ == old(state).teams@);
    }
    assign_in_league_games(state, &mut teams_matrix, max_games);

    proof {
        let cur = tm_v(&state.teams, &teams_matrix);
        let big = league_pairs_upto(lgs, lgs.len() as int);
        lemma_league_pairs_in_range(lgs, n as int, lgs.len() as int);
        lemma_matz_links(&teams_matrix, n as int);
        lemma_fold_pairs2_effect(tm0, big);
        assert(cur == fold_pairs2_v(tm0, big));
        assert forall|a: int, b: int| 0 <= a < n && 0 <= b < n implies #[trigger] mat_at_i(
            cur.mat,
            a,
            b,
        ) >= 0 && (a != b ==> mat_at_i(cur.mat, a, b) <= cur.teams[a].num_games) by {
            let au = a as usize;
            let bu = b as usize;
            assert(mat_at_i(cur.mat, a, b) == mat_at_i(tm0.mat, a, b) + 2 * (count_pair_exact(
                au,
                bu,
                big,
            ) + count_pair_exact(bu, au, big)));
            let la = old(state).teams@[a].league_index as int;
            let lb = old(state).teams@[b].league_index as int;
            assert(teams_v(old(state).teams@)[a].league_index as int == la);
            assert(teams_v(old(state).teams@)[b].league_index as int == lb);
            assert(0 <= la < lgs.len() && lgs[la].start() <= a < lgs[la].stop());
            assert(0 <= lb < lgs.len() && lgs[lb].start() <= b < lgs[lb].stop());
            lemma_league_pairs_facts(
                lgs,
                n as int,
                lgs.len() as int,
                la,
                au,
                la,
                au,
                lb,
                bu,
            );
            lemma_league_pairs_facts(
                lgs,
                n as int,
                lgs.len() as int,
                lb,
                bu,
                lb,
                bu,
                la,
                au,
            );
            assert(mat_at_i(tm0.mat, a, b) == 0);
            if a != b {
                assert(state.teams@[a].num_games as int == cur.teams[a].num_games);
                if la == lb {
                    assert(count_pair_exact(au, bu, big) + count_pair_exact(bu, au, big) == 1);
                    assert(cur.teams[a].num_games == 2 * (league_size(lgs, la) - 1));
                    assert(league_size(lgs, la) >= 2);
                } else {
                    assert(count_pair_exact(au, bu, big) + count_pair_exact(bu, au, big) == 0);
                    assert(cur.teams[a].num_games >= 0);
                }
            }
        }
        assert(tm_wf(cur, max_games as int)) by {
            assert(mat_square_i(cur.mat, n as int));
            assert forall|t: int| 0 <= t < n implies 0 <= #[trigger] cur.teams[t].num_games
                <= max_games by {
                assert(state.teams@[t].num_games as int == cur.teams[t].num_games);
            }
            assert forall|t: int| 0 <= t < n implies #[trigger] cur.teams[t].teams_against.len()
                == cur.teams[t].num_games by {
                let u = t as usize;
                assert(cur.teams[u as int].teams_against == tm0.teams[u as int].teams_against
                    + partners2_s(u, big));
                assert(tm0.teams[t].num_games == 0 && tm0.teams[t].teams_against.len() == 0);
                lemma_partners2_len(u, big);
                assert(cur.teams[u as int].num_games == tm0.teams[u as int].num_games + 2
                    * count_pairs_with(u, big));
            }
        }
    }

    assign_minimum_interleague_games(state, &mut teams_matrix, league_distance_matrix, max_games);

    proof {
        assert forall|t: int| 0 <= t < n implies #[trigger] state.teams@[t].league_index
            < league_distance_matrix@.len() by {
            assert(state.teams@[t].league_index == old(state).teams@[t].league_index);
            assert((teams_v(old(state).teams@)[t].league_index as int) < lgs.len());
        }
    }

    proof {
        assert(tm_v(&state.teams, &teams_matrix) == base);
    }
    assign_remaining_games(state, &mut teams_matrix, league_distance_matrix, max_games);

    proof {
        assert forall|t: int| 0 <= t < n implies 0 <= #[trigger] state.teams@[t].num_games
            <= max_games by {
            let fin = tm_v(&state.teams, &teams_matrix);
            assert(fin.teams[t] == team_v(state.teams@[t]));
            assert(0 <= fin.teams[t].num_games <= max_games);
        }
        assert forall|t: int| 0 <= t < n implies #[trigger] state.teams@[t].teams_against@.len()
            == state.teams@[t].num_games by {
            let fin = tm_v(&state.teams, &teams_matrix);
            assert(fin.teams[t] == team_v(state.teams@[t]));
            assert(fin.teams[t].teams_against.len() == fin.teams[t].num_games);
        }
        assert forall|t: int| 0 <= t < n implies #[trigger] state.teams@[t].league_index
            < lgs.len() by {
            assert(state.teams@[t].league_index == old(state).teams@[t].league_index);
            assert((teams_v(old(state).teams@)[t].league_index as int) < lgs.len());
        }
        let kk = choose|k: nat|
            tm_v(&state.teams, &teams_matrix) == pass3_iter(base, ldm, max_games, n as int, k);
        assert(tm_v(&state.teams, &teams_matrix) == pass3_iter(base, ldm, max_games, n as int, kk));
    }
    teams_matrix
}

/// `c` copies of one game.
pub open spec fn repeat_game(g: Game, c: int) -> Seq<Game>
    decreases c,
{
    if c <= 0 {
        Seq::empty()
    } else {
        seq![g] + repeat_game(g, c - 1)
    }
}

pub proof fn lemma_repeat_game(g: Game, c: int)
    ensures
        repeat_game(g, c).len() == if c >= 0 {
            c
        } else {
            0
        },
        forall|i: int| 0 <= i < repeat_game(g, c).len() ==> #[trigger] repeat_game(g, c)[i] == g,
    decreases c,
{
    if c > 0 {
        lemma_repeat_game(g, c - 1);
        assert forall|i: int| 0 <= i < repeat_game(g, c).len() implies #[trigger] repeat_game(
            g,
            c,
        )[i] == g by {
            if i > 0 {
                assert(repeat_game(g, c)[i] == repeat_game(g, c - 1)[i - 1]);
            }
        }
    }
}

/// One game record per required instance of each pair of `ps`, in pair
/// order: the pair `(a, b)` appears `mat[a][b]` times, carrying the travel
/// distance between the two teams' leagues.
pub open spec fn game_list_s(
    teams: Seq<TeamV>,
    mat: Seq<Seq<int>>,
    ldm: Seq<Seq<i32>>,
    ps: Seq<(usize, usize)>,
) -> Seq<Game>
    decreases ps.len(),
{
    if ps.len() == 0 {
        Seq::empty()
    } else {
        let p = ps[0];
        let g = Game {
            ti0: p.0,
            ti1: p.1,
            distance: mat_at32(
                ldm,
                teams[p.0 as int].league_index as int,
                teams[p.1 as int].league_index as int,
            ),
        };
        repeat_game(g, mat_at_i(mat, p.0 as int, p.1 as int)) + game_list_s(
            teams,
            mat,
            ldm,
            ps.drop_first(),
        )
    }
}

/// Build the flat list of required games from the team-game count matrix —
/// one record per required instance, pairs in lexicographic order — then
/// sort it ascending by travel distance (stable, so the order is fully
/// determined). The search phase consumes games in exactly this order.
pub fn build_game_list(
    state: &State,
    teams_matrix: &Matrix,
    league_distance_matrix: &Matrix,
) -> (r: Vec<Game>)
    requires
        state.teams@.len() == teams_matrix@.len(),
        mat_square(mat_view(teams_matrix), state.teams@.len() as int),
        mat_square(mat_view(league_distance_matrix), league_distance_matrix@.len() as int),
        forall|t: int|
            0 <= t < state.teams@.len() ==> #[trigger] state.teams@[t].league_index
                < league_distance_matrix@.len(),
    ensures
        r@ == sort_by_dist_s(
            game_list_s(
                teams_v(state.teams@),
                matz(teams_matrix),
                mat_view(league_distance_matrix),
                range_pairs_s(0, state.teams@.len() as int),
            ),
        ),
        sorted_by_dist(r@),
        forall|i: int| 0 <= i < r@.len() ==> #[trigger] r@[i].ti0 < r@[i].ti1 < state.teams@.len(),
{
    let ghost tv = teams_v(state.teams@);
    let ghost mz = matz(teams_matrix);
    let ghost ldm = mat_view(league_distance_matrix);
    let n = state.teams.len();
    let pairs = range_pairs(0, n);
    let ghost allp = range_pairs_s(0, n as int);
    proof {
        lemma_range_pairs_bounds(0, n as int);
        lemma_matz_links(teams_matrix, n as int);
    }
    let mut acc: Vec<Game> = Vec::new();
    let mut i: usize = 0;
    while i < pairs.len()
        invariant
            i <= pairs@.len(),
            n == state.teams@.len(),
            tv == teams_v(state.teams@),
            mz == matz(teams_matrix),
            ldm == mat_view(league_distance_matrix),
            state.teams@.len() == teams_matrix@.len(),
            mat_square(mat_view(teams_matrix), n as int),
            mat_square(ldm, league_distance_matrix@.len() as int),
            forall|t: int|
                0 <= t < n ==> #[trigger] state.teams@[t].league_index
                    < league_distance_matrix@.len(),
            pairs@ == allp,
            pairs_in_range(allp, n as int),
            acc@ == game_list_s(tv, mz, ldm, allp.take(i as int)),
            forall|k: int| 0 <= k < acc@.len() ==> #[trigger] acc@[k].ti0 < acc@[k].ti1 < n,
        decreases pairs@.len() - i,
    {
        let pr = pairs[i];
        let a = pr.0;
        let b = pr.1;
        proof {
            assert(allp[i as int].0 < allp[i as int].1 < n);
            assert(tv[a as int] == team_v(state.teams@[a as int]));
            assert(tv[b as int] == team_v(state.teams@[b as int]));
        }
        let c = get_matrix_val(teams_matrix, a, b);
        let la = state.teams[a].league_index;
        let lb = state.teams[b].league_index;
        let d = get_matrix_val(league_distance_matrix, la, lb);
        let g = Game { ti0: a, ti1: b, distance: d };
        proof {
            lemma_repeat_game(g, c as int);
        }
        let mut q: i32 = 0;
        while q < c
            invariant
                0 <= q,
                c as int == mat_at_i(mz, a as int, b as int),
                c >= 0 ==> q <= c,
                c < 0 ==> q == 0,
                g.ti0 == a && g.ti1 == b && a < b < n,
                acc@ == game_list_s(tv, mz, ldm, allp.take(i as int)) + repeat_game(g, q as int),
                forall|k: int| 0 <= k < acc@.len() ==> #[trigger] acc@[k].ti0 < acc@[k].ti1 < n,
                forall|k: int|
                    0 <= k < repeat_game(g, c as int).len() ==> #[trigger] repeat_game(
                        g,
                        c as int,
                    )[k] == g,
            decreases c - q,
        {
            acc.push(g);
            proof {
                lemma_repeat_game(g, q + 1);
                lemma_repeat_game(g, q as int);
                assert(repeat_game(g, q + 1) =~= repeat_game(g, q as int).push(g));
                assert(game_list_s(tv, mz, ldm, allp.take(i as int)) + repeat_game(g, q as int)
                    + seq![g] =~= game_list_s(tv, mz, ldm, allp.take(i as int)) + repeat_game(
                    g,
                    q + 1,
                ));
            }
            q = q + 1;
        }
        proof {
            let pre = allp.take(i as int);
            let nxt = allp.take(i + 1);
            lemma_game_list_take_step(tv, mz, ldm, allp, i as int);
            assert(g == Game {
                ti0: allp[i as int].0,
                ti1: allp[i as int].1,
                distance: mat_at32(
                    ldm,
                    tv[allp[i as int].0 as int].league_index as int,
                    tv[allp[i as int].1 as int].league_index as int,
                ),
            });
            if c >= 0 {
                assert(q == c);
                assert(acc@ =~= game_list_s(tv, mz, ldm, nxt));
            } else {
                assert(q == 0);
                assert(repeat_game(g, c as int) =~= Seq::<Game>::empty());
                assert(repeat_game(g, 0) =~= Seq::<Game>::empty());
                assert(acc@ =~= game_list_s(tv, mz, ldm, nxt));
            }
        }
        i = i + 1;
    }
    proof {
        assert(allp.take(allp.len() as int) =~= allp);
    }
    let r = sort_games_by_distance(&acc);
    proof {
        lemma_sort_by_dist_members(acc@);
        assert forall|k: int| 0 <= k < r@.len() implies #[trigger] r@[k].ti0 < r@[k].ti1 < n by {
            assert(r@.contains(r@[k]));
            let j = choose|j: int| 0 <= j < acc@.len() && acc@[j] == r@[k];
        }
    }
    r
}

/// Extending the pair prefix by one appends that pair's block of copies.
proof fn lemma_game_list_take_step(
    teams: Seq<TeamV>,
    mat: Seq<Seq<int>>,
    ldm: Seq<Seq<i32>>,
    ps: Seq<(usize, usize)>,
    i: int,
)
    requires
        0 <= i < ps.len(),
    ensures
        game_list_s(teams, mat, ldm, ps.take(i + 1)) == game_list_s(teams, mat, ldm, ps.take(i))
            + repeat_game(
            Game {
                ti0: ps[i].0,
                ti1: ps[i].1,
                distance: mat_at32(
                    ldm,
                    teams[ps[i].0 as int].league_index as int,
                    teams[ps[i].1 as int].league_index as int,
                ),
            },
            mat_at_i(mat, ps[i].0 as int, ps[i].1 as int),
        ),
    decreases i,
{
    if i == 0 {
        assert(ps.take(1)[0] == ps[0]);
        assert(ps.take(1).drop_first() =~= Seq::<(usize, usize)>::empty());
        assert(ps.take(0) =~= Seq::<(usize, usize)>::empty());
        assert(game_list_s(teams, mat, ldm, ps.take(0)) + repeat_game(
            Game {
                ti0: ps[0].0,
                ti1: ps[0].1,
                distance: mat_at32(
                    ldm,
                    teams[ps[0].0 as int].league_index as int,
                    teams[ps[0].1 as int].league_index as int,
                ),
            },
            mat_at_i(mat, ps[0].0 as int, ps[0].1 as int),
        ) =~= repeat_game(
            Game {
                ti0: ps[0].0,
                ti1: ps[0].1,
                distance: mat_at32(
                    ldm,
                    teams[ps[0].0 as int].league_index as int,
                    teams[ps[0].1 as int].league_index as int,
                ),
            },
            mat_at_i(mat, ps[0].0 as int, ps[0].1 as int),
        ));
    } else {
        lemma_game_list_take_step(teams, mat, ldm, ps.drop_first(), i - 1);
        assert(ps.take(i + 1).drop_first() =~= ps.drop_first().take(i));
        assert(ps.take(i).drop_first() =~= ps.drop_first().take(i - 1));
        assert(ps.take(i + 1)[0] == ps[0]);
        assert(ps.take(i)[0] == ps[0]);
        assert(ps.drop_first()[i - 1] == ps[i]);
        let head = repeat_game(
            Game {
                ti0: ps[0].0,
                ti1: ps[0].1,
                distance: mat_at32(
                    ldm,
                    teams[ps[0].0 as int].league_index as int,
                    teams[ps[0].1 as int].league_index as int,
                ),
            },
            mat_at_i(mat, ps[0].0 as int, ps[0].1 as int),
        );
        let blk = repeat_game(
            Game {
                ti0: ps[i].0,
                ti1: ps[i].1,
                distance: mat_at32(
                    ldm,
                    teams[ps[i].0 as int].league_index as int,
                    teams[ps[i].1 as int].league_index as int,
                ),
            },
            mat_at_i(mat, ps[i].0 as int, ps[i].1 as int),
        );
        assert(game_list_s(teams, mat, ldm, ps.take(i + 1)) == head + (game_list_s(
            teams,
            mat,
            ldm,
            ps.drop_first().take(i - 1),
        ) + blk));
        assert(head + (game_list_s(teams, mat, ldm, ps.drop_first().take(i - 1)) + blk) =~= (head
            + game_list_s(teams, mat, ldm, ps.drop_first().take(i - 1))) + blk);
        assert(game_list_s(teams, mat, ldm, ps.take(i)) == head + game_list_s(
            teams,
            mat,
            ldm,
            ps.drop_first().take(i - 1),
        ));
    }
}

/// Every team of the builder state stands at the cap.
pub open spec fn all_at_cap(tm: TM, max: i32) -> bool {
    forall|t: int| 0 <= t < tm.teams.len() ==> #[trigger] tm.teams[t].num_games == max
}

proof fn lemma_pass2_round_at_cap(
    tm: TM,
    cursors: Seq<usize>,
    leagues: Seq<League>,
    li0: int,
    li1: int,
    count: nat,
    max: i32,
    n: int,
)
    requires
        tm.teams.len() == n,
        leagues_wf(leagues, n),
        cursors_wf(cursors, leagues),
        0 <= li0 < leagues.len(),
        0 <= li1 < leagues.len(),
        all_at_cap(tm, max),
    ensures
        pass2_round_v(tm, cursors, leagues, li0, li1, count, max) == (tm, cursors),
{
    if count > 0 {
        lemma_league_bounds(leagues, n);
        assert(leagues[li0].start() <= cursors[li0] < leagues[li0].stop());
        assert(tm.teams[cursors[li0] as int].num_games == max);
    }
}

proof fn lemma_pass2_all_at_cap(
    tm: TM,
    cursors: Seq<usize>,
    combos: Seq<Game>,
    leagues: Seq<League>,
    max: i32,
    n: int,
)
    requires
        tm.teams.len() == n,
        leagues_wf(leagues, n),
        cursors_wf(cursors, leagues),
        forall|k: int| 0 <= k < combos.len() ==> #[trigger] combos[k].ti0 < combos[k].ti1
            < leagues.len(),
        all_at_cap(tm, max),
    ensures
        pass2_all_v(tm, cursors, combos, leagues, max) == (tm, cursors),
    decreases combos.len(),
{
    if combos.len() > 0 {
        let c = combos[0];
        assert(c.ti0 < c.ti1 < leagues.len());
        let count = if league_size(leagues, c.ti0 as int) <= league_size(leagues, c.ti1 as int) {
            league_size(leagues, c.ti0 as int)
        } else {
            league_size(leagues, c.ti1 as int)
        };
        lemma_pass2_round_at_cap(
            tm,
            cursors,
            leagues,
            c.ti0 as int,
            c.ti1 as int,
            count as nat,
            max,
            n,
        );
        assert(forall|k: int|
            0 <= k < combos.drop_first().len() ==> #[trigger] combos.drop_first()[k].ti0
                < combos.drop_first()[k].ti1 < leagues.len());
        lemma_pass2_all_at_cap(tm, cursors, combos.drop_first(), leagues, max, n);
    }
}

proof fn lemma_best_s_at_cap(
    tm: TM,
    ldm: Seq<Seq<i32>>,
    max: i32,
    ps: Seq<(usize, usize)>,
    n: int,
)
    requires
        tm.teams.len() == n,
        pairs_in_range(ps, n),
        all_at_cap(tm, max),
    ensures
        best_s(tm, ldm, max, ps, None) is None,
    decreases ps.len(),
{
    if ps.len() > 0 {
        assert(ps[0].0 < ps[0].1 < n);
        assert(tm.teams[ps[0].0 as int].num_games == max);
        assert(!eligible(tm, max, ps[0].0, ps[0].1));
        assert(pairs_in_range(ps.drop_first(), n)) by {
            assert forall|k: int|
                0 <= k < ps.drop_first().len() implies #[trigger] ps.drop_first()[k].0
                < ps.drop_first()[k].1 < n by {
                assert(ps.drop_first()[k] == ps[k + 1]);
            }
        }
        lemma_best_s_at_cap(tm, ldm, max, ps.drop_first(), n);
    }
}

/// The league pairs sorted by distance keep strictly ordered league indices.
proof fn lemma_league_combos_bounds(leagues: Seq<League>, ldm: Seq<Seq<i32>>)
    requires
        leagues.len() <= usize::MAX,
    ensures
        forall|k: int|
            0 <= k < sort_by_dist_s(league_combos_s(leagues, ldm)).len()
                ==> #[trigger] sort_by_dist_s(league_combos_s(leagues, ldm))[k].ti0 < sort_by_dist_s(
                league_combos_s(leagues, ldm),
            )[k].ti1 < leagues.len(),
{
    let combos = league_combos_s(leagues, ldm);
    let full = sort_by_dist_s(combos);
    lemma_sort_by_dist_members(combos);
    lemma_range_pairs_bounds(0, leagues.len() as int);
    assert forall|k: int| 0 <= k < full.len() implies #[trigger] full[k].ti0 < full[k].ti1
        < leagues.len() by {
        assert(full.contains(full[k]));
        let j = choose|j: int| 0 <= j < combos.len() && combos[j] == full[k];
        assert(combos[j].ti0 == range_pairs_s(0, leagues.len() as int)[j].0);
        assert(combos[j].ti1 == range_pairs_s(0, leagues.len() as int)[j].1);
    }
}

/// Law: after the whole builder runs, in-league opponents each appear
/// exactly twice in every team's opponent list — whenever each league's
/// mandatory in-league schedule exactly fills the per-team cap, so that the
/// later passes have no room to add games. (With slack below the cap the
/// third pass may legitimately pair league mates again, so the law is
/// stated for exactly-filling caps.)
pub proof fn lemma_builder_in_league_exactly_twice(
    teams0: Seq<TeamV>,
    leagues: Seq<League>,
    ldm: Seq<Seq<i32>>,
    max: i32,
    fin: TM,
    k: nat,
)
    requires
        teams0.len() <= usize::MAX,
        leagues.len() <= usize::MAX,
        leagues_wf(leagues, teams0.len() as int),
        team_leagues_ok(teams0, leagues),
        forall|t: int| 0 <= t < teams0.len() ==> #[trigger] teams0[t].num_games == 0,
        forall|t: int| 0 <= t < teams0.len() ==> #[trigger] teams0[t].teams_against.len() == 0,
        forall|li: int|
            0 <= li < leagues.len() ==> 2 * (league_size(leagues, li) - 1) == max,
        fin == pass3_iter(
            builder_prefix_v(
                TM { teams: teams0, mat: zero_mat_i(teams0.len() as int) },
                leagues,
                ldm,
                max,
            ),
            ldm,
            max,
            teams0.len() as int,
            k,
        ),
    ensures
        forall|t: usize, x: usize|
            t < teams0.len() && x < teams0.len() && t != x ==> #[trigger] count_occ(
                x,
                fin.teams[t as int].teams_against,
            ) == if teams0[t as int].league_index == teams0[x as int].league_index {
                2int
            } else {
                0int
            },
{
    let n = teams0.len() as int;
    let tm0 = TM { teams: teams0, mat: zero_mat_i(n) };
    let big = league_pairs_upto(leagues, leagues.len() as int);
    let mid = fold_pairs2_v(tm0, big);
    lemma_league_bounds(leagues, n);
    lemma_league_pairs_in_range(leagues, n, leagues.len() as int);
    assert(mat_square_i(tm0.mat, n)) by {
        assert forall|i: int| 0 <= i < n implies #[trigger] zero_mat_i(n)[i].len() == n by {}
    }
    lemma_fold_pairs2_effect(tm0, big);

    assert(all_at_cap(mid, max)) by {
        assert forall|t: int| 0 <= t < n implies #[trigger] mid.teams[t].num_games == max by {
            let li0 = teams0[t].league_index as int;
            assert(0 <= li0 < leagues.len() && leagues[li0].start() <= t < leagues[li0].stop());
            let u = t as usize;
            lemma_league_pairs_facts(leagues, n, leagues.len() as int, li0, u, li0, u, li0, u);
            assert(fold_pairs2_v(tm0, big).teams[u as int].num_games == tm0.teams[u as int].num_games + 2 * count_pairs_with(u, big));
            assert(tm0.teams[u as int].num_games == 0);
            assert(count_pairs_with(u, big) == league_size(leagues, li0) - 1);
            assert(2 * (league_size(leagues, li0) - 1) == max);
        }
    }

    let starts = league_starts_s(leagues);
    assert(cursors_wf(starts, leagues));
    lemma_league_combos_bounds(leagues, ldm);
    lemma_pass2_all_at_cap(
        mid,
        starts,
        sort_by_dist_s(league_combos_s(leagues, ldm)),
        leagues,
        max,
        n,
    );
    assert(builder_prefix_v(tm0, leagues, ldm, max) == mid);

    lemma_range_pairs_bounds(0, n);
    lemma_best_s_at_cap(mid, ldm, max, range_pairs_s(0, n), n);
    assert(pass3_stuck(mid, ldm, max, n));
    lemma_pass3_stuck_absorbs(mid, ldm, max, n, k);
    assert(fin == mid);

    assert forall|t: usize, x: usize| t < n && x < n && t != x implies #[trigger] count_occ(
        x,
        fin.teams[t as int].teams_against,
    ) == if teams0[t as int].league_index == teams0[x as int].league_index {
        2int
    } else {
        0int
    } by {
        let lt = teams0[t as int].league_index as int;
        let lx = teams0[x as int].league_index as int;
        assert(0 <= lt < leagues.len() && leagues[lt].start() <= t < leagues[lt].stop());
        assert(0 <= lx < leagues.len() && leagues[lx].start() <= x < leagues[lx].stop());
        assert(fin.teams[t as int].teams_against == teams0[t as int].teams_against + partners2_s(
            t,
            big,
        ));
        assert(teams0[t as int].teams_against.len() == 0);
        assert(teams0[t as int].teams_against + partners2_s(t, big) =~= partners2_s(t, big));
        lemma_partners2_count(t, x, big);
        lemma_league_pairs_facts(leagues, n, leagues.len() as int, lt, t, lt, t, lx, x);
        lemma_league_pairs_facts(leagues, n, leagues.len() as int, lx, x, lx, x, lt, t);
    }
}

} // verus!
