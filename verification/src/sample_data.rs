//! Sample rosters and calendars: the fixed league tables and day lists the
//! library ships for trying out the scheduler.

use vstd::prelude::*;

use crate::interleague_schedule::{contains_team, strictly_sorted, Day};
use crate::matrix::{mat_square, mat_view, Matrix};
use crate::teams::{
    league_size, leagues_wf, team_leagues_ok, teams_v, League, State, Team,
};

verus! {

/// The fixed inter-league travel distance table of the sample district:
/// eight leagues, upper triangle populated.
pub open spec fn district8_rows() -> Seq<Seq<i32>> {
    seq![
        seq![0i32, 3i32, 3i32, 3i32, 3i32, 1i32, 3i32, 2i32],
        seq![0i32, 0i32, 4i32, 4i32, 1i32, 1i32, 2i32, 2i32],
        seq![0i32, 0i32, 0i32, 1i32, 2i32, 2i32, 1i32, 1i32],
        seq![0i32, 0i32, 0i32, 0i32, 2i32, 2i32, 1i32, 1i32],
        seq![0i32, 0i32, 0i32, 0i32, 0i32, 2i32, 1i32, 1i32],
        seq![0i32, 0i32, 0i32, 0i32, 0i32, 0i32, 2i32, 1i32],
        seq![0i32, 0i32, 0i32, 0i32, 0i32, 0i32, 0i32, 1i32],
        seq![0i32, 0i32, 0i32, 0i32, 0i32, 0i32, 0i32, 0i32]
    ]
}

/// The sample district's league distance table, exactly `district8_rows`.
pub fn get_district8_city_league_distances() -> (r: Matrix)
    ensures
        mat_view(&r) == district8_rows(),
        r@.len() == 8,
        mat_square(mat_view(&r), 8),
{
    let mut m: Matrix = Vec::new();
    let mut row: Vec<i32> = Vec::new();
    row.push(0);
    row.push(3);
    row.push(3);
    row.push(3);
    row.push(3);
    row.push(1);
    row.push(3);
    row.push(2);
    m.push(row);
    let mut row: Vec<i32> = Vec::new();
    row.push(0);
    row.push(0);
    row.push(4);
    row.push(4);
    row.push(1);
    row.push(1);
    row.push(2);
    row.push(2);
    m.push(row);
    let mut row: Vec<i32> = Vec::new();
    row.push(0);
    row.push(0);
    row.push(0);
    row.push(1);
    row.push(2);
    row.push(2);
    row.push(1);
    row.push(1);
    m.push(row);
    let mut row: Vec<i32> = Vec::new();
    row.push(0);
    row.push(0);
    row.push(0);
    row.push(0);
    row.push(2);
    row.push(2);
    row.push(1);
    row.push(1);
    m.push(row);
    let mut row: Vec<i32> = Vec::new();
    row.push(0);
    row.push(0);
    row.push(0);
    row.push(0);
    row.push(0);
    row.push(2);
    row.push(1);
    row.push(1);
    m.push(row);
    let mut row: Vec<i32> = Vec::new();
    row.push(0);
    row.push(0);
    row.push(0);
    row.push(0);
    row.push(0);
    row.push(0);
    row.push(2);
    row.push(1);
    m.push(row);
    let mut row: Vec<i32> = Vec::new();
    row.push(0);
    row.push(0);
    row.push(0);
    row.push(0);
    row.push(0);
    row.push(0);
    row.push(0);
    row.push(1);
    m.push(row);
    let mut row: Vec<i32> = Vec::new();
    row.push(0);
    row.push(0);
    row.push(0);
    row.push(0);
    row.push(0);
    row.push(0);
    row.push(0);
    row.push(0);
    m.push(row);
    proof {
        assert(mat_view(&m) =~~= district8_rows());
        assert forall|i: int| 0 <= i < 8 implies #[trigger] mat_view(&m)[i].len() == 8 by {
            assert(district8_rows()[i].len() == 8);
        }
    }
    m
}

/// The total team count named by a league description list.
pub open spec fn total_teams(info: Seq<(String, usize)>) -> int
    decreases info.len(),
{
    if info.len() == 0 {
        0
    } else {
        info[0].1 + total_teams(info.drop_first())
    }
}

pub proof fn lemma_total_teams_push(info: Seq<(String, usize)>, x: (String, usize))
    ensures
        total_teams(info.push(x)) == total_teams(info) + x.1,
    decreases info.len(),
{
    if info.len() == 0 {
        assert(info.push(x).drop_first() =~= Seq::<(String, usize)>::empty());
        assert(info.push(x)[0] == x);
        assert(total_teams(info.push(x)) == x.1 + total_teams(info.push(x).drop_first()));
    } else {
        assert(info.push(x).drop_first() =~= info.drop_first().push(x));
        assert(info.push(x)[0] == info[0]);
        lemma_total_teams_push(info.drop_first(), x);
    }
}

pub proof fn lemma_total_teams_split(info: Seq<(String, usize)>, k: int)
    requires
        0 <= k <= info.len(),
    ensures
        total_teams(info) == total_teams(info.take(k)) + total_teams(info.skip(k)),
        total_teams(info.skip(k)) >= 0,
    decreases info.len() - k,
{
    if k == info.len() {
        assert(info.take(k) =~= info);
        assert(info.skip(k) =~= Seq::<(String, usize)>::empty());
    } else {
        lemma_total_teams_split(info, k + 1);
        assert(info.take(k + 1) =~= info.take(k).push(info[k]));
        lemma_total_teams_push(info.take(k), info[k]);
        assert(info.skip(k).drop_first() =~= info.skip(k + 1));
        assert(total_teams(info.skip(k)) == info[k].1 + total_teams(info.skip(k + 1)));
    }
}

/// Build a fresh roster from a league description list: each entry names a
/// league and its team count, leagues tile the index range in order, and
/// every team starts with no games.
pub fn get_state_from_league_info(league_info: &Vec<(String, usize)>) -> (r: State)
    requires
        forall|k: int| 0 <= k < league_info@.len() ==> 1 <= #[trigger] league_info@[k].1,
        total_teams(league_info@) <= usize::MAX,
    ensures
        r.leagues@.len() == league_info@.len(),
        r.teams@.len() == total_teams(league_info@),
        leagues_wf(r.leagues@, r.teams@.len() as int),
        team_leagues_ok(teams_v(r.teams@), r.leagues@),
        forall|t: int| 0 <= t < r.teams@.len() ==> #[trigger] r.teams@[t].num_games == 0,
        forall|t: int|
            0 <= t < r.teams@.len() ==> #[trigger] r.teams@[t].teams_against@.len() == 0,
        forall|k: int|
            0 <= k < league_info@.len() ==> #[trigger] league_size(r.leagues@, k)
                == league_info@[k].1,
        forall|k: int| 0 <= k < league_info@.len() ==> #[trigger] r.leagues@[k].name@
            == league_info@[k].0@,
{
    let ghost info = league_info@;
    let mut state = State { leagues: Vec::new(), teams: Vec::new() };
    let mut last_index: usize = 0;
    let mut li: usize = 0;
    proof {
        assert(info.take(0) =~= Seq::<(String, usize)>::empty());
    }
    while li < league_info.len()
        invariant
            li <= info.len(),
            info == league_info@,
            forall|k: int| 0 <= k < info.len() ==> 1 <= #[trigger] info[k].1,
            total_teams(info) <= usize::MAX,
            last_index as int == total_teams(info.take(li as int)),
            state.leagues@.len() == li,
            state.teams@.len() == last_index,
            li > 0 ==> state.leagues@[0].start() == 0,
            li > 0 ==> state.leagues@[li - 1].stop() == last_index,
            forall|k: int|
                0 <= k < li - 1 ==> #[trigger] state.leagues@[k].stop() == state.leagues@[k
                    + 1].start(),
            forall|k: int|
                0 <= k < li ==> #[trigger] state.leagues@[k].start() < state.leagues@[k].stop(),
            forall|k: int|
                0 <= k < li ==> #[trigger] league_size(state.leagues@, k) == info[k].1,
            forall|k: int| 0 <= k < li ==> #[trigger] state.leagues@[k].name@ == info[k].0@,
            forall|t: int|
                0 <= t < state.teams@.len() ==> #[trigger] state.teams@[t].num_games == 0,
            forall|t: int|
                0 <= t < state.teams@.len() ==> #[trigger] state.teams@[t].teams_against@.len()
                    == 0,
            forall|t: int|
                0 <= t < state.teams@.len() ==> {
                    let lx = #[trigger] state.teams@[t].league_index as int;
                    lx < li && state.leagues@[lx].start() <= t < state.leagues@[lx].stop()
                },
        decreases info.len() - li,
    {
        let name: String = league_info[li].0.clone();
        let team_count: usize = league_info[li].1;
        proof {
            lemma_total_teams_split(info, li + 1);
            assert(info.take(li + 1) =~= info.take(li as int).push(info[li as int]));
            lemma_total_teams_push(info.take(li as int), info[li as int]);
        }
        let ghost leagues_before = state.leagues@;
        state.leagues.push(
            League { name, team_index_range: (last_index, last_index + team_count) },
        );
        let mut j: usize = 0;
        while j < team_count
            invariant
                j <= team_count,
                state.teams@.len() == last_index + j,
                li < info.len(),
                forall|t: int|
                    0 <= t < state.teams@.len() ==> #[trigger] state.teams@[t].num_games == 0,
                forall|t: int|
                    0 <= t < state.teams@.len() ==> #[trigger] state.teams@[t].teams_against@.len()
                        == 0,
                forall|t: int|
                    0 <= t < last_index ==> {
                        let lx = #[trigger] state.teams@[t].league_index as int;
                        lx < li && state.leagues@[lx].start() <= t < state.leagues@[lx].stop()
                    },
                forall|t: int|
                    last_index <= t < state.teams@.len() ==> #[trigger] state.teams@[t].league_index == li,
                state.leagues@.len() == li + 1,
                state.leagues@ == leagues_before.push(state.leagues@[li as int]),
                state.leagues@[li as int].start() == last_index,
                state.leagues@[li as int].stop() == last_index + team_count,
                state.leagues@[li as int].name@ == info[li as int].0@,
                last_index + team_count <= usize::MAX,
            decreases team_count - j,
        {
            state.teams.push(Team { league_index: li, num_games: 0, teams_against: Vec::new() });
            j = j + 1;
        }
        proof {
            assert forall|k: int| 0 <= k < li + 1 implies #[trigger] league_size(
                state.leagues@,
                k,
            ) == info[k].1 && state.leagues@[k].name@ == info[k].0@ by {
                if k < li {
                    assert(state.leagues@[k] == leagues_before[k]);
                    assert(league_size(leagues_before, k) == info[k].1);
                }
            }
        }
        last_index = last_index + team_count;
        li = li + 1;
    }
    proof {
        assert(info.take(info.len() as int) =~= info);
    }
    state
}


/// How many of the team indices `0 .. num_teams` are available: those not
/// named in the unavailable list.
pub open spec fn avail_count(num_teams: int, ex: Seq<usize>) -> int
    decreases num_teams,
{
    if num_teams <= 0 {
        0
    } else {
        avail_count(num_teams - 1, ex) + if ex.contains((num_teams - 1) as usize) {
            0int
        } else {
            1int
        }
    }
}

/// How many listed indices lie below `n`.
pub open spec fn count_below(ex: Seq<usize>, n: int) -> int
    decreases ex.len(),
{
    if ex.len() == 0 {
        0
    } else {
        (if (ex[0] as int) < n {
            1int
        } else {
            0int
        }) + count_below(ex.drop_first(), n)
    }
}

proof fn lemma_strictly_sorted_drop_first(ex: Seq<usize>)
    requires
        strictly_sorted(ex),
        ex.len() > 0,
    ensures
        strictly_sorted(ex.drop_first()),
{
    assert forall|a: int, b: int|
        0 <= a < b < ex.drop_first().len() implies ex.drop_first()[a] < ex.drop_first()[b] by {
        assert(ex[a + 1] < ex[b + 1]);
    }
}

proof fn lemma_count_below_zero(ex: Seq<usize>, n: int)
    requires
        n <= 0,
    ensures
        count_below(ex, n) == 0,
    decreases ex.len(),
{
    if ex.len() > 0 {
        lemma_count_below_zero(ex.drop_first(), n);
    }
}

proof fn lemma_count_below_step(ex: Seq<usize>, n: int)
    requires
        strictly_sorted(ex),
        1 <= n,
        n - 1 <= usize::MAX,
    ensures
        count_below(ex, n) == count_below(ex, n - 1) + (if ex.contains((n - 1) as usize) {
            1int
        } else {
            0int
        }),
    decreases ex.len(),
{
    if ex.len() == 0 {
    } else {
        lemma_strictly_sorted_drop_first(ex);
        lemma_count_below_step(ex.drop_first(), n);
        let h = ex[0];
        if h as int == n - 1 {
            assert(ex.contains((n - 1) as usize)) by {
                assert(ex[0] == (n - 1) as usize);
            }
            assert(!ex.drop_first().contains((n - 1) as usize)) by {
                if ex.drop_first().contains((n - 1) as usize) {
                    let k = choose|k: int|
                        0 <= k < ex.drop_first().len() && ex.drop_first()[k] == (n - 1) as usize;
                    assert(ex[0] < ex[k + 1]);
                }
            }
        } else {
            assert(ex.contains((n - 1) as usize) == ex.drop_first().contains((n - 1) as usize)) by {
                if ex.contains((n - 1) as usize) {
                    let k = choose|k: int| 0 <= k < ex.len() && ex[k] == (n - 1) as usize;
                    assert(k != 0);
                    assert(ex.drop_first()[k - 1] == (n - 1) as usize);
                }
                if ex.drop_first().contains((n - 1) as usize) {
                    let k = choose|k: int|
                        0 <= k < ex.drop_first().len() && ex.drop_first()[k] == (n - 1) as usize;
                    assert(ex[k + 1] == (n - 1) as usize);
                }
            }
        }
    }
}

/// With a duplicate-free (ascending) unavailable list, the available count
/// is the roster size less the listed indices below it.
pub proof fn lemma_avail_count_distinct(n: int, ex: Seq<usize>)
    requires
        0 <= n <= usize::MAX,
        strictly_sorted(ex),
    ensures
        avail_count(n, ex) == n - count_below(ex, n),
    decreases n,
{
    if n == 0 {
        lemma_count_below_zero(ex, 0);
    } else {
        lemma_avail_count_distinct(n - 1, ex);
        lemma_count_below_step(ex, n);
    }
}

/// When every listed index lies below `n`, all of them count.
pub proof fn lemma_count_below_all(ex: Seq<usize>, n: int)
    requires
        forall|k: int| 0 <= k < ex.len() ==> (#[trigger] ex[k] as int) < n,
    ensures
        count_below(ex, n) == ex.len(),
    decreases ex.len(),
{
    if ex.len() > 0 {
        assert(forall|k: int|
            0 <= k < ex.drop_first().len() ==> (#[trigger] ex.drop_first()[k] as int) < n);
        lemma_count_below_all(ex.drop_first(), n);
    }
}

/// One calendar day built from its description: the date label, the weekend
/// flag, and the available-team list — every team index below `num_teams`
/// not named as unavailable, ascending. No games are assigned yet.
///
/// A day whose available-team count is odd is a configuration error
/// (it can never be fully paired off), so callers must supply day data with
/// an even available count.
pub fn get_day_from_day_info(day_info: (String, bool, Vec<usize>), num_teams: usize) -> (r: Day)
    requires
        avail_count(num_teams as int, day_info.2@) % 2 == 0,
    ensures
        r@.date == day_info.0@,
        r@.is_weekend == day_info.1,
        r@.games.len() == 0,
        strictly_sorted(r@.teams_remaining),
        forall|x: usize|
            #[trigger] r@.teams_remaining.contains(x) <==> (x < num_teams
                && !day_info.2@.contains(x)),
        r@.teams_remaining.len() == avail_count(num_teams as int, day_info.2@),
        r@.teams_remaining.len() % 2 == 0,
{
    let mut teams_playing: Vec<usize> = Vec::new();
    let mut i: usize = 0;
    while i < num_teams
        invariant
            i <= num_teams,
            strictly_sorted(teams_playing@),
            teams_playing@.len() == avail_count(i as int, day_info.2@),
            forall|k: int| 0 <= k < teams_playing@.len() ==> #[trigger] teams_playing@[k] < i,
            forall|x: usize|
                #[trigger] teams_playing@.contains(x) <==> (x < i && !day_info.2@.contains(x)),
        decreases num_teams - i,
    {
        if !contains_team(&day_info.2, i) {
            let ghost prev = teams_playing@;
            teams_playing.push(i);
            proof {
                assert forall|x: usize| #[trigger] teams_playing@.contains(x) implies (x < i + 1
                    && !day_info.2@.contains(x)) by {
                    let k = choose|k: int| 0 <= k < teams_playing@.len() && teams_playing@[k] == x;
                    if k < prev.len() {
                        assert(prev[k] == x);
                        assert(prev.contains(x));
                    }
                }
                assert forall|x: usize| (x < i + 1 && !day_info.2@.contains(x)) implies
                    #[trigger] teams_playing@.contains(x) by {
                    if x < i {
                        assert(prev.contains(x));
                        let k = choose|k: int| 0 <= k < prev.len() && prev[k] == x;
                        assert(teams_playing@[k] == x);
                    } else {
                        assert(teams_playing@.last() == x);
                    }
                }
                assert forall|a: int, b: int|
                    0 <= a < b < teams_playing@.len() implies teams_playing@[a] < teams_playing@[b] by {
                    if b == teams_playing@.len() - 1 {
                        assert(teams_playing@[a] == prev[a]);
                    }
                }
            }
        } else {
            proof {
                assert forall|x: usize| (x < i + 1 && !day_info.2@.contains(x)) implies
                    #[trigger] teams_playing@.contains(x) by {}
            }
        }
        i = i + 1;
    }
    Day {
        date: day_info.0,
        is_weekend: day_info.1,
        teams_remaining: teams_playing,
        games: Vec::new(),
    }
}

/// A fresh sample roster: the fixed league list below, leagues tiling the
/// team index range in order, every counter zero.
pub fn get_2023_majors_softball_state() -> (r: State)
    ensures
        r.leagues@.len() == 8,
        r.teams@.len() == 13,
        leagues_wf(r.leagues@, r.teams@.len() as int),
        team_leagues_ok(teams_v(r.teams@), r.leagues@),
        forall|t: int| 0 <= t < r.teams@.len() ==> #[trigger] r.teams@[t].num_games == 0,
        forall|t: int|
            0 <= t < r.teams@.len() ==> #[trigger] r.teams@[t].teams_against@.len() == 0,
        forall|li: int|
            0 <= li < r.leagues@.len() ==> 1 <= #[trigger] league_size(r.leagues@, li)
                <= 3,
        r.leagues@[0].team_index_range == (0usize, 1usize),
        r.leagues@[0].name@ == "SL"@,
        r.leagues@[1].team_index_range == (1usize, 4usize),
        r.leagues@[1].name@ == "NE"@,
        r.leagues@[2].team_index_range == (4usize, 6usize),
        r.leagues@[2].name@ == "MAG"@,
        r.leagues@[3].team_index_range == (6usize, 7usize),
        r.leagues@[3].name@ == "QA"@,
        r.leagues@[4].team_index_range == (7usize, 8usize),
        r.leagues@[4].name@ == "NW"@,
        r.leagues@[5].team_index_range == (8usize, 9usize),
        r.leagues@[5].name@ == "RUG"@,
        r.leagues@[6].team_index_range == (9usize, 11usize),
        r.leagues@[6].name@ == "BAL"@,
        r.leagues@[7].team_index_range == (11usize, 13usize),
        r.leagues@[7].name@ == "NC"@,
{
    let mut league_info: Vec<(String, usize)> = Vec::new();
    let ghost v0 = league_info@;
    league_info.push(("SL".to_string(), 1));
    let ghost v1 = league_info@;
    league_info.push(("NE".to_string(), 3));
    let ghost v2 = league_info@;
    league_info.push(("MAG".to_string(), 2));
    let ghost v3 = league_info@;
    league_info.push(("QA".to_string(), 1));
    let ghost v4 = league_info@;
    league_info.push(("NW".to_string(), 1));
    let ghost v5 = league_info@;
    league_info.push(("RUG".to_string(), 1));
    let ghost v6 = league_info@;
    league_info.push(("BAL".to_string(), 2));
    let ghost v7 = league_info@;
    league_info.push(("NC".to_string(), 2));
    let ghost v8 = league_info@;
    proof {
        assert(v0 =~= Seq::<(String, usize)>::empty());
        lemma_total_teams_push(v0, v1.last());
        lemma_total_teams_push(v1, v2.last());
        lemma_total_teams_push(v2, v3.last());
        lemma_total_teams_push(v3, v4.last());
        lemma_total_teams_push(v4, v5.last());
        lemma_total_teams_push(v5, v6.last());
        lemma_total_teams_push(v6, v7.last());
        lemma_total_teams_push(v7, v8.last());
        assert(league_info@[0].1 == 1);
        assert(league_info@[1].1 == 3);
        assert(league_info@[2].1 == 2);
        assert(league_info@[3].1 == 1);
        assert(league_info@[4].1 == 1);
        assert(league_info@[5].1 == 1);
        assert(league_info@[6].1 == 2);
        assert(league_info@[7].1 == 2);
        assert(total_teams(league_info@) == 13);
        assert forall|k: int| 0 <= k < league_info@.len() implies 1 <= #[trigger] league_info@[k].1 <= 3 by {}
    }
    let r = get_state_from_league_info(&league_info);
    proof {
        assert(league_size(r.leagues@, 0) == 1);
        assert(r.leagues@[0].start() == 0);
        assert(r.leagues@[0].start() == 0 && r.leagues@[0].stop() == 1);
        assert(r.leagues@[0].team_index_range == (0usize, 1usize));
        assert(r.leagues@[0].name@ == league_info@[0].0@);
        assert(league_info@[0].0@ == "SL"@);
        assert(league_size(r.leagues@, 1) == 3);
        assert(r.leagues@[1].start() == r.leagues@[0].stop());
        assert(r.leagues@[1].start() == 1 && r.leagues@[1].stop() == 4);
        assert(r.leagues@[1].team_index_range == (1usize, 4usize));
        assert(r.leagues@[1].name@ == league_info@[1].0@);
        assert(league_info@[1].0@ == "NE"@);
        assert(league_size(r.leagues@, 2) == 2);
        assert(r.leagues@[2].start() == r.leagues@[1].stop());
        assert(r.leagues@[2].start() == 4 && r.leagues@[2].stop() == 6);
        assert(r.leagues@[2].team_index_range == (4usize, 6usize));
        assert(r.leagues@[2].name@ == league_info@[2].0@);
        assert(league_info@[2].0@ == "MAG"@);
        assert(league_size(r.leagues@, 3) == 1);
        assert(r.leagues@[3].start() == r.leagues@[2].stop());
        assert(r.leagues@[3].start() == 6 && r.leagues@[3].stop() == 7);
        assert(r.leagues@[3].team_index_range == (6usize, 7usize));
        assert(r.leagues@[3].name@ == league_info@[3].0@);
        assert(league_info@[3].0@ == "QA"@);
        assert(league_size(r.leagues@, 4) == 1);
        assert(r.leagues@[4].start() == r.leagues@[3].stop());
        assert(r.leagues@[4].start() == 7 && r.leagues@[4].stop() == 8);
        assert(r.leagues@[4].team_index_range == (7usize, 8usize));
        assert(r.leagues@[4].name@ == league_info@[4].0@);
        assert(league_info@[4].0@ == "NW"@);
        assert(league_size(r.leagues@, 5) == 1);
        assert(r.leagues@[5].start() == r.leagues@[4].stop());
        assert(r.leagues@[5].start() == 8 && r.leagues@[5].stop() == 9);
        assert(r.leagues@[5].team_index_range == (8usize, 9usize));
        assert(r.leagues@[5].name@ == league_info@[5].0@);
        assert(league_info@[5].0@ == "RUG"@);
        assert(league_size(r.leagues@, 6) == 2);
        assert(r.leagues@[6].start() == r.leagues@[5].stop());
        assert(r.leagues@[6].start() == 9 && r.leagues@[6].stop() == 11);
        assert(r.leagues@[6].team_index_range == (9usize, 11usize));
        assert(r.leagues@[6].name@ == league_info@[6].0@);
        assert(league_info@[6].0@ == "BAL"@);
        assert(league_size(r.leagues@, 7) == 2);
        assert(r.leagues@[7].start() == r.leagues@[6].stop());
        assert(r.leagues@[7].start() == 11 && r.leagues@[7].stop() == 13);
        assert(r.leagues@[7].team_index_range == (11usize, 13usize));
        assert(r.leagues@[7].name@ == league_info@[7].0@);
        assert(league_info@[7].0@ == "NC"@);
    }
    r
}

/// A fresh sample roster: the fixed league list below, leagues tiling the
/// team index range in order, every counter zero.
pub fn get_2023_aaa_softball_state() -> (r: State)
    ensures
        r.leagues@.len() == 8,
        r.teams@.len() == 23,
        leagues_wf(r.leagues@, r.teams@.len() as int),
        team_leagues_ok(teams_v(r.teams@), r.leagues@),
        forall|t: int| 0 <= t < r.teams@.len() ==> #[trigger] r.teams@[t].num_games == 0,
        forall|t: int|
            0 <= t < r.teams@.len() ==> #[trigger] r.teams@[t].teams_against@.len() == 0,
        forall|li: int|
            0 <= li < r.leagues@.len() ==> 1 <= #[trigger] league_size(r.leagues@, li)
                <= 4,
        r.leagues@[0].team_index_range == (0usize, 3usize),
        r.leagues@[0].name@ == "SL"@,
        r.leagues@[1].team_index_range == (3usize, 7usize),
        r.leagues@[1].name@ == "NE"@,
        r.leagues@[2].team_index_range == (7usize, 11usize),
        r.leagues@[2].name@ == "MAG"@,
        r.leagues@[3].team_index_range == (11usize, 13usize),
        r.leagues@[3].name@ == "QA"@,
        r.leagues@[4].team_index_range == (13usize, 14usize),
        r.leagues@[4].name@ == "NW"@,
        r.leagues@[5].team_index_range == (14usize, 17usize),
        r.leagues@[5].name@ == "RUG"@,
        r.leagues@[6].team_index_range == (17usize, 19usize),
        r.leagues@[6].name@ == "BAL"@,
        r.leagues@[7].team_index_range == (19usize, 23usize),
        r.leagues@[7].name@ == "NC"@,
{
    let mut league_info: Vec<(String, usize)> = Vec::new();
    let ghost v0 = league_info@;
    league_info.push(("SL".to_string(), 3));
    let ghost v1 = league_info@;
    league_info.push(("NE".to_string(), 4));
    let ghost v2 = league_info@;
    league_info.push(("MAG".to_string(), 4));
    let ghost v3 = league_info@;
    league_info.push(("QA".to_string(), 2));
    let ghost v4 = league_info@;
    league_info.push(("NW".to_string(), 1));
    let ghost v5 = league_info@;
    league_info.push(("RUG".to_string(), 3));
    let ghost v6 = league_info@;
    league_info.push(("BAL".to_string(), 2));
    let ghost v7 = league_info@;
    league_info.push(("NC".to_string(), 4));
    let ghost v8 = league_info@;
    proof {
        assert(v0 =~= Seq::<(String, usize)>::empty());
        lemma_total_teams_push(v0, v1.last());
        lemma_total_teams_push(v1, v2.last());
        lemma_total_teams_push(v2, v3.last());
        lemma_total_teams_push(v3, v4.last());
        lemma_total_teams_push(v4, v5.last());
        lemma_total_teams_push(v5, v6.last());
        lemma_total_teams_push(v6, v7.last());
        lemma_total_teams_push(v7, v8.last());
        assert(league_info@[0].1 == 3);
        assert(league_info@[1].1 == 4);
        assert(league_info@[2].1 == 4);
        assert(league_info@[3].1 == 2);
        assert(league_info@[4].1 == 1);
        assert(league_info@[5].1 == 3);
        assert(league_info@[6].1 == 2);
        assert(league_info@[7].1 == 4);
        assert(total_teams(league_info@) == 23);
        assert forall|k: int| 0 <= k < league_info@.len() implies 1 <= #[trigger] league_info@[k].1 <= 4 by {}
    }
    let r = get_state_from_league_info(&league_info);
    proof {
        assert(league_size(r.leagues@, 0) == 3);
        assert(r.leagues@[0].start() == 0);
        assert(r.leagues@[0].start() == 0 && r.leagues@[0].stop() == 3);
        assert(r.leagues@[0].team_index_range == (0usize, 3usize));
        assert(r.leagues@[0].name@ == league_info@[0].0@);
        assert(league_info@[0].0@ == "SL"@);
        assert(league_size(r.leagues@, 1) == 4);
        assert(r.leagues@[1].start() == r.leagues@[0].stop());
        assert(r.leagues@[1].start() == 3 && r.leagues@[1].stop() == 7);
        assert(r.leagues@[1].team_index_range == (3usize, 7usize));
        assert(r.leagues@[1].name@ == league_info@[1].0@);
        assert(league_info@[1].0@ == "NE"@);
        assert(league_size(r.leagues@, 2) == 4);
        assert(r.leagues@[2].start() == r.leagues@[1].stop());
        assert(r.leagues@[2].start() == 7 && r.leagues@[2].stop() == 11);
        assert(r.leagues@[2].team_index_range == (7usize, 11usize));
        assert(r.leagues@[2].name@ == league_info@[2].0@);
        assert(league_info@[2].0@ == "MAG"@);
        assert(league_size(r.leagues@, 3) == 2);
        assert(r.leagues@[3].start() == r.leagues@[2].stop());
        assert(r.leagues@[3].start() == 11 && r.leagues@[3].stop() == 13);
        assert(r.leagues@[3].team_index_range == (11usize, 13usize));
        assert(r.leagues@[3].name@ == league_info@[3].0@);
        assert(league_info@[3].0@ == "QA"@);
        assert(league_size(r.leagues@, 4) == 1);
        assert(r.leagues@[4].start() == r.leagues@[3].stop());
        assert(r.leagues@[4].start() == 13 && r.leagues@[4].stop() == 14);
        assert(r.leagues@[4].team_index_range == (13usize, 14usize));
        assert(r.leagues@[4].name@ == league_info@[4].0@);
        assert(league_info@[4].0@ == "NW"@);
        assert(league_size(r.leagues@, 5) == 3);
        assert(r.leagues@[5].start() == r.leagues@[4].stop());
        assert(r.leagues@[5].start() == 14 && r.leagues@[5].stop() == 17);
        assert(r.leagues@[5].team_index_range == (14usize, 17usize));
        assert(r.leagues@[5].name@ == league_info@[5].0@);
        assert(league_info@[5].0@ == "RUG"@);
        assert(league_size(r.leagues@, 6) == 2);
        assert(r.leagues@[6].start() == r.leagues@[5].stop());
        assert(r.leagues@[6].start() == 17 && r.leagues@[6].stop() == 19);
        assert(r.leagues@[6].team_index_range == (17usize, 19usize));
        assert(r.leagues@[6].name@ == league_info@[6].0@);
        assert(league_info@[6].0@ == "BAL"@);
        assert(league_size(r.leagues@, 7) == 4);
        assert(r.leagues@[7].start() == r.leagues@[6].stop());
        assert(r.leagues@[7].start() == 19 && r.leagues@[7].stop() == 23);
        assert(r.leagues@[7].team_index_range == (19usize, 23usize));
        assert(r.leagues@[7].name@ == league_info@[7].0@);
        assert(league_info@[7].0@ == "NC"@);
    }
    r
}

/// A fresh sample roster: the fixed league list below, leagues tiling the
/// team index range in order, every counter zero.
pub fn get_2024_aaa_softball_state() -> (r: State)
    ensures
        r.leagues@.len() == 8,
        r.teams@.len() == 23,
        leagues_wf(r.leagues@, r.teams@.len() as int),
        team_leagues_ok(teams_v(r.teams@), r.leagues@),
        forall|t: int| 0 <= t < r.teams@.len() ==> #[trigger] r.teams@[t].num_games == 0,
        forall|t: int|
            0 <= t < r.teams@.len() ==> #[trigger] r.teams@[t].teams_against@.len() == 0,
        forall|li: int|
            0 <= li < r.leagues@.len() ==> 1 <= #[trigger] league_size(r.leagues@, li)
                <= 5,
        r.leagues@[0].team_index_range == (0usize, 4usize),
        r.leagues@[0].name@ == "SL"@,
        r.leagues@[1].team_index_range == (4usize, 8usize),
        r.leagues@[1].name@ == "NE"@,
        r.leagues@[2].team_index_range == (8usize, 13usize),
        r.leagues@[2].name@ == "MAG"@,
        r.leagues@[3].team_index_range == (13usize, 15usize),
        r.leagues@[3].name@ == "QA"@,
        r.leagues@[4].team_index_range == (15usize, 16usize),
        r.leagues@[4].name@ == "NW"@,
        r.leagues@[5].team_index_range == (16usize, 19usize),
        r.leagues@[5].name@ == "RUG"@,
        r.leagues@[6].team_index_range == (19usize, 20usize),
        r.leagues@[6].name@ == "BAL"@,
        r.leagues@[7].team_index_range == (20usize, 23usize),
        r.leagues@[7].name@ == "NC"@,
{
    let mut league_info: Vec<(String, usize)> = Vec::new();
    let ghost v0 = league_info@;
    league_info.push(("SL".to_string(), 4));
    let ghost v1 = league_info@;
    league_info.push(("NE".to_string(), 4));
    let ghost v2 = league_info@;
    league_info.push(("MAG".to_string(), 5));
    let ghost v3 = league_info@;
    league_info.push(("QA".to_string(), 2));
    let ghost v4 = league_info@;
    league_info.push(("NW".to_string(), 1));
    let ghost v5 = league_info@;
    league_info.push(("RUG".to_string(), 3));
    let ghost v6 = league_info@;
    league_info.push(("BAL".to_string(), 1));
    let ghost v7 = league_info@;
    league_info.push(("NC".to_string(), 3));
    let ghost v8 = league_info@;
    proof {
        assert(v0 =~= Seq::<(String, usize)>::empty());
        lemma_total_teams_push(v0, v1.last());
        lemma_total_teams_push(v1, v2.last());
        lemma_total_teams_push(v2, v3.last());
        lemma_total_teams_push(v3, v4.last());
        lemma_total_teams_push(v4, v5.last());
        lemma_total_teams_push(v5, v6.last());
        lemma_total_teams_push(v6, v7.last());
        lemma_total_teams_push(v7, v8.last());
        assert(league_info@[0].1 == 4);
        assert(league_info@[1].1 == 4);
        assert(league_info@[2].1 == 5);
        assert(league_info@[3].1 == 2);
        assert(league_info@[4].1 == 1);
        assert(league_info@[5].1 == 3);
        assert(league_info@[6].1 == 1);
        assert(league_info@[7].1 == 3);
        assert(total_teams(league_info@) == 23);
        assert forall|k: int| 0 <= k < league_info@.len() implies 1 <= #[trigger] league_info@[k].1 <= 5 by {}
    }
    let r = get_state_from_league_info(&league_info);
    proof {
        assert(league_size(r.leagues@, 0) == 4);
        assert(r.leagues@[0].start() == 0);
        assert(r.leagues@[0].start() == 0 && r.leagues@[0].stop() == 4);
        assert(r.leagues@[0].team_index_range == (0usize, 4usize));
        assert(r.leagues@[0].name@ == league_info@[0].0@);
        assert(league_info@[0].0@ == "SL"@);
        assert(league_size(r.leagues@, 1) == 4);
        assert(r.leagues@[1].start() == r.leagues@[0].stop());
        assert(r.leagues@[1].start() == 4 && r.leagues@[1].stop() == 8);
        assert(r.leagues@[1].team_index_range == (4usize, 8usize));
        assert(r.leagues@[1].name@ == league_info@[1].0@);
        assert(league_info@[1].0@ == "NE"@);
        assert(league_size(r.leagues@, 2) == 5);
        assert(r.leagues@[2].start() == r.leagues@[1].stop());
        assert(r.leagues@[2].start() == 8 && r.leagues@[2].stop() == 13);
        assert(r.leagues@[2].team_index_range == (8usize, 13usize));
        assert(r.leagues@[2].name@ == league_info@[2].0@);
        assert(league_info@[2].0@ == "MAG"@);
        assert(league_size(r.leagues@, 3) == 2);
        assert(r.leagues@[3].start() == r.leagues@[2].stop());
        assert(r.leagues@[3].start() == 13 && r.leagues@[3].stop() == 15);
        assert(r.leagues@[3].team_index_range == (13usize, 15usize));
        assert(r.leagues@[3].name@ == league_info@[3].0@);
        assert(league_info@[3].0@ == "QA"@);
        assert(league_size(r.leagues@, 4) == 1);
        assert(r.leagues@[4].start() == r.leagues@[3].stop());
        assert(r.leagues@[4].start() == 15 && r.leagues@[4].stop() == 16);
        assert(r.leagues@[4].team_index_range == (15usize, 16usize));
        assert(r.leagues@[4].name@ == league_info@[4].0@);
        assert(league_info@[4].0@ == "NW"@);
        assert(league_size(r.leagues@, 5) == 3);
        assert(r.leagues@[5].start() == r.leagues@[4].stop());
        assert(r.leagues@[5].start() == 16 && r.leagues@[5].stop() == 19);
        assert(r.leagues@[5].team_index_range == (16usize, 19usize));
        assert(r.leagues@[5].name@ == league_info@[5].0@);
        assert(league_info@[5].0@ == "RUG"@);
        assert(league_size(r.leagues@, 6) == 1);
        assert(r.leagues@[6].start() == r.leagues@[5].stop());
        assert(r.leagues@[6].start() == 19 && r.leagues@[6].stop() == 20);
        assert(r.leagues@[6].team_index_range == (19usize, 20usize));
        assert(r.leagues@[6].name@ == league_info@[6].0@);
        assert(league_info@[6].0@ == "BAL"@);
        assert(league_size(r.leagues@, 7) == 3);
        assert(r.leagues@[7].start() == r.leagues@[6].stop());
        assert(r.leagues@[7].start() == 20 && r.leagues@[7].stop() == 23);
        assert(r.leagues@[7].team_index_range == (20usize, 23usize));
        assert(r.leagues@[7].name@ == league_info@[7].0@);
        assert(league_info@[7].0@ == "NC"@);
    }
    r
}

/// A sample calendar: each entry is a date label, a weekend flag, and the
/// team indices unavailable that day. Every exclusion list here has odd size and
/// its indices lie below 13, so with an odd roster of at least 13 teams
/// every day's available count is even.
pub fn get_2023_majors_softball_days(num_teams: usize) -> (r: Vec<Day>)
    requires
        num_teams % 2 == 1,
        num_teams >= 13,
    ensures
        r@.len() == 18,
        forall|d: int|
            0 <= d < r@.len() ==> strictly_sorted(#[trigger] r@[d]@.teams_remaining)
                && r@[d]@.games.len() == 0 && r@[d]@.teams_remaining.len() % 2 == 0,
        r@[0]@.date == "3/23"@,
        r@[0]@.is_weekend == true,
        forall|x: usize|
            r@[0]@.teams_remaining.contains(x) <==> (x < num_teams && (x != 12)),
        r@[1]@.date == "3/27"@,
        r@[1]@.is_weekend == false,
        forall|x: usize|
            r@[1]@.teams_remaining.contains(x) <==> (x < num_teams && (x != 10)),
        r@[2]@.date == "3/30"@,
        r@[2]@.is_weekend == true,
        forall|x: usize|
            r@[2]@.teams_remaining.contains(x) <==> (x < num_teams && (x != 11)),
        r@[3]@.date == "4/03"@,
        r@[3]@.is_weekend == false,
        forall|x: usize|
            r@[3]@.teams_remaining.contains(x) <==> (x < num_teams && (x != 9)),
        r@[4]@.date == "4/13"@,
        r@[4]@.is_weekend == true,
        forall|x: usize|
            r@[4]@.teams_remaining.contains(x) <==> (x < num_teams && (x != 1 && x != 2 && x != 3 && x != 4 && x != 5 && x != 7 && x != 10 && x != 11 && x != 12)),
        r@[5]@.date == "4/17"@,
        r@[5]@.is_weekend == false,
        forall|x: usize|
            r@[5]@.teams_remaining.contains(x) <==> (x < num_teams && (x != 8)),
        r@[6]@.date == "4/20"@,
        r@[6]@.is_weekend == true,
        forall|x: usize|
            r@[6]@.teams_remaining.contains(x) <==> (x < num_teams && (x != 0)),
        r@[7]@.date == "4/24"@,
        r@[7]@.is_weekend == false,
        forall|x: usize|
            r@[7]@.teams_remaining.contains(x) <==> (x < num_teams && (x != 0)),
        r@[8]@.date == "4/27"@,
        r@[8]@.is_weekend == true,
        forall|x: usize|
            r@[8]@.teams_remaining.contains(x) <==> (x < num_teams && (x != 9)),
        r@[9]@.date == "4/29"@,
        r@[9]@.is_weekend == false,
        forall|x: usize|
            r@[9]@.teams_remaining.contains(x) <==> (x < num_teams && (x != 6)),
        r@[10]@.date == "5/01"@,
        r@[10]@.is_weekend == false,
        forall|x: usize|
            r@[10]@.teams_remaining.contains(x) <==> (x < num_teams && (x != 5)),
        r@[11]@.date == "5/04"@,
        r@[11]@.is_weekend == true,
        forall|x: usize|
            r@[11]@.teams_remaining.contains(x) <==> (x < num_teams && (x != 8)),
        r@[12]@.date == "5/06"@,
        r@[12]@.is_weekend == false,
        forall|x: usize|
            r@[12]@.teams_remaining.contains(x) <==> (x < num_teams && (x != 4)),
        r@[13]@.date == "5/08"@,
        r@[13]@.is_weekend == false,
        forall|x: usize|
            r@[13]@.teams_remaining.contains(x) <==> (x < num_teams && (x != 3)),
        r@[14]@.date == "5/11"@,
        r@[14]@.is_weekend == true,
        forall|x: usize|
            r@[14]@.teams_remaining.contains(x) <==> (x < num_teams && (x != 7)),
        r@[15]@.date == "5/13"@,
        r@[15]@.is_weekend == false,
        forall|x: usize|
            r@[15]@.teams_remaining.contains(x) <==> (x < num_teams && (x != 2)),
        r@[16]@.date == "5/15"@,
        r@[16]@.is_weekend == false,
        forall|x: usize|
            r@[16]@.teams_remaining.contains(x) <==> (x < num_teams && (x != 1)),
        r@[17]@.date == "5/18"@,
        r@[17]@.is_weekend == true,
        forall|x: usize|
            r@[17]@.teams_remaining.contains(x) <==> (x < num_teams && (x != 6)),
{
    let mut days: Vec<Day> = Vec::new();
    let mut not_these: Vec<usize> = Vec::new();
    not_these.push(12);
    let ghost exv = not_these@;
    proof {
        assert(strictly_sorted(not_these@));
        assert forall|j: int| 0 <= j < not_these@.len() implies (#[trigger] not_these@[j] as int)
            < num_teams by {
            assert((not_these@[j] as int) < 13);
        }
        lemma_avail_count_distinct(num_teams as int, not_these@);
        lemma_count_below_all(not_these@, num_teams as int);
        assert forall|x: usize| #[trigger] exv.contains(x) implies (x == 12) by {
            let k = choose|k: int| 0 <= k < exv.len() && exv[k] == x;
        }
        assert forall|x: usize| (x == 12) implies #[trigger] exv.contains(x) by {
            if x == 12 {
                assert(exv[0] == 12);
            }
        }
    }
    days.push(get_day_from_day_info(("3/23".to_string(), true, not_these), num_teams));
    let mut not_these: Vec<usize> = Vec::new();
    not_these.push(10);
    let ghost exv = not_these@;
    proof {
        assert(strictly_sorted(not_these@));
        assert forall|j: int| 0 <= j < not_these@.len() implies (#[trigger] not_these@[j] as int)
            < num_teams by {
            assert((not_these@[j] as int) < 13);
        }
        lemma_avail_count_distinct(num_teams as int, not_these@);
        lemma_count_below_all(not_these@, num_teams as int);
        assert forall|x: usize| #[trigger] exv.contains(x) implies (x == 10) by {
            let k = choose|k: int| 0 <= k < exv.len() && exv[k] == x;
        }
        assert forall|x: usize| (x == 10) implies #[trigger] exv.contains(x) by {
            if x == 10 {
                assert(exv[0] == 10);
            }
        }
    }
    days.push(get_day_from_day_info(("3/27".to_string(), false, not_these), num_teams));
    let mut not_these: Vec<usize> = Vec::new();
    not_these.push(11);
    let ghost exv = not_these@;
    proof {
        assert(strictly_sorted(not_these@));
        assert forall|j: int| 0 <= j < not_these@.len() implies (#[trigger] not_these@[j] as int)
            < num_teams by {
            assert((not_these@[j] as int) < 13);
        }
        lemma_avail_count_distinct(num_teams as int, not_these@);
        lemma_count_below_all(not_these@, num_teams as int);
        assert forall|x: usize| #[trigger] exv.contains(x) implies (x == 11) by {
            let k = choose|k: int| 0 <= k < exv.len() && exv[k] == x;
        }
        assert forall|x: usize| (x == 11) implies #[trigger] exv.contains(x) by {
            if x == 11 {
                assert(exv[0] == 11);
            }
        }
    }
    days.push(get_day_from_day_info(("3/30".to_string(), true, not_these), num_teams));
    let mut not_these: Vec<usize> = Vec::new();
    not_these.push(9);
    let ghost exv = not_these@;
    proof {
        assert(strictly_sorted(not_these@));
        assert forall|j: int| 0 <= j < not_these@.len() implies (#[trigger] not_these@[j] as int)
            < num_teams by {
            assert((not_these@[j] as int) < 13);
        }
        lemma_avail_count_distinct(num_teams as int, not_these@);
        lemma_count_below_all(not_these@, num_teams as int);
        assert forall|x: usize| #[trigger] exv.contains(x) implies (x == 9) by {
            let k = choose|k: int| 0 <= k < exv.len() && exv[k] == x;
        }
        assert forall|x: usize| (x == 9) implies #[trigger] exv.contains(x) by {
            if x == 9 {
                assert(exv[0] == 9);
            }
        }
    }
    days.push(get_day_from_day_info(("4/03".to_string(), false, not_these), num_teams));
    let mut not_these: Vec<usize> = Vec::new();
    not_these.push(1);
    not_these.push(2);
    not_these.push(3);
    not_these.push(4);
    not_these.push(5);
    not_these.push(7);
    not_these.push(10);
    not_these.push(11);
    not_these.push(12);
    let ghost exv = not_these@;
    proof {
        assert(strictly_sorted(not_these@));
        assert forall|j: int| 0 <= j < not_these@.len() implies (#[trigger] not_these@[j] as int)
            < num_teams by {
            assert((not_these@[j] as int) < 13);
        }
        lemma_avail_count_distinct(num_teams as int, not_these@);
        lemma_count_below_all(not_these@, num_teams as int);
        assert forall|x: usize| #[trigger] exv.contains(x) implies (x == 1 || x == 2 || x == 3 || x == 4 || x == 5 || x == 7 || x == 10 || x == 11 || x == 12) by {
            let k = choose|k: int| 0 <= k < exv.len() && exv[k] == x;
        }
        assert forall|x: usize| (x == 1 || x == 2 || x == 3 || x == 4 || x == 5 || x == 7 || x == 10 || x == 11 || x == 12) implies #[trigger] exv.contains(x) by {
            if x == 1 {
                assert(exv[0] == 1);
            }
            if x == 2 {
                assert(exv[1] == 2);
            }
            if x == 3 {
                assert(exv[2] == 3);
            }
            if x == 4 {
                assert(exv[3] == 4);
            }
            if x == 5 {
                assert(exv[4] == 5);
            }
            if x == 7 {
                assert(exv[5] == 7);
            }
            if x == 10 {
                assert(exv[6] == 10);
            }
            if x == 11 {
                assert(exv[7] == 11);
            }
            if x == 12 {
                assert(exv[8] == 12);
            }
        }
    }
    days.push(get_day_from_day_info(("4/13".to_string(), true, not_these), num_teams));
    let mut not_these: Vec<usize> = Vec::new();
    not_these.push(8);
    let ghost exv = not_these@;
    proof {
        assert(strictly_sorted(not_these@));
        assert forall|j: int| 0 <= j < not_these@.len() implies (#[trigger] not_these@[j] as int)
            < num_teams by {
            assert((not_these@[j] as int) < 13);
        }
        lemma_avail_count_distinct(num_teams as int, not_these@);
        lemma_count_below_all(not_these@, num_teams as int);
        assert forall|x: usize| #[trigger] exv.contains(x) implies (x == 8) by {
            let k = choose|k: int| 0 <= k < exv.len() && exv[k] == x;
        }
        assert forall|x: usize| (x == 8) implies #[trigger] exv.contains(x) by {
            if x == 8 {
                assert(exv[0] == 8);
            }
        }
    }
    days.push(get_day_from_day_info(("4/17".to_string(), false, not_these), num_teams));
    let mut not_these: Vec<usize> = Vec::new();
    not_these.push(0);
    let ghost exv = not_these@;
    proof {
        assert(strictly_sorted(not_these@));
        assert forall|j: int| 0 <= j < not_these@.len() implies (#[trigger] not_these@[j] as int)
            < num_teams by {
            assert((not_these@[j] as int) < 13);
        }
        lemma_avail_count_distinct(num_teams as int, not_these@);
        lemma_count_below_all(not_these@, num_teams as int);
        assert forall|x: usize| #[trigger] exv.contains(x) implies (x == 0) by {
            let k = choose|k: int| 0 <= k < exv.len() && exv[k] == x;
        }
        assert forall|x: usize| (x == 0) implies #[trigger] exv.contains(x) by {
            if x == 0 {
                assert(exv[0] == 0);
            }
        }
    }
    days.push(get_day_from_day_info(("4/20".to_string(), true, not_these), num_teams));
    let mut not_these: Vec<usize> = Vec::new();
    not_these.push(0);
    let ghost exv = not_these@;
    proof {
        assert(strictly_sorted(not_these@));
        assert forall|j: int| 0 <= j < not_these@.len() implies (#[trigger] not_these@[j] as int)
            < num_teams by {
            assert((not_these@[j] as int) < 13);
        }
        lemma_avail_count_distinct(num_teams as int, not_these@);
        lemma_count_below_all(not_these@, num_teams as int);
        assert forall|x: usize| #[trigger] exv.contains(x) implies (x == 0) by {
            let k = choose|k: int| 0 <= k < exv.len() && exv[k] == x;
        }
        assert forall|x: usize| (x == 0) implies #[trigger] exv.contains(x) by {
            if x == 0 {
                assert(exv[0] == 0);
            }
        }
    }
    days.push(get_day_from_day_info(("4/24".to_string(), false, not_these), num_teams));
    let mut not_these: Vec<usize> = Vec::new();
    not_these.push(9);
    let ghost exv = not_these@;
    proof {
        assert(strictly_sorted(not_these@));
        assert forall|j: int| 0 <= j < not_these@.len() implies (#[trigger] not_these@[j] as int)
            < num_teams by {
            assert((not_these@[j] as int) < 13);
        }
        lemma_avail_count_distinct(num_teams as int, not_these@);
        lemma_count_below_all(not_these@, num_teams as int);
        assert forall|x: usize| #[trigger] exv.contains(x) implies (x == 9) by {
            let k = choose|k: int| 0 <= k < exv.len() && exv[k] == x;
        }
        assert forall|x: usize| (x == 9) implies #[trigger] exv.contains(x) by {
            if x == 9 {
                assert(exv[0] == 9);
            }
        }
    }
    days.push(get_day_from_day_info(("4/27".to_string(), true, not_these), num_teams));
    let mut not_these: Vec<usize> = Vec::new();
    not_these.push(6);
    let ghost exv = not_these@;
    proof {
        assert(strictly_sorted(not_these@));
        assert forall|j: int| 0 <= j < not_these@.len() implies (#[trigger] not_these@[j] as int)
            < num_teams by {
            assert((not_these@[j] as int) < 13);
        }
        lemma_avail_count_distinct(num_teams as int, not_these@);
        lemma_count_below_all(not_these@, num_teams as int);
        assert forall|x: usize| #[trigger] exv.contains(x) implies (x == 6) by {
            let k = choose|k: int| 0 <= k < exv.len() && exv[k] == x;
        }
        assert forall|x: usize| (x == 6) implies #[trigger] exv.contains(x) by {
            if x == 6 {
                assert(exv[0] == 6);
            }
        }
    }
    days.push(get_day_from_day_info(("4/29".to_string(), false, not_these), num_teams));
    let mut not_these: Vec<usize> = Vec::new();
    not_these.push(5);
    let ghost exv = not_these@;
    proof {
        assert(strictly_sorted(not_these@));
        assert forall|j: int| 0 <= j < not_these@.len() implies (#[trigger] not_these@[j] as int)
            < num_teams by {
            assert((not_these@[j] as int) < 13);
        }
        lemma_avail_count_distinct(num_teams as int, not_these@);
        lemma_count_below_all(not_these@, num_teams as int);
        assert forall|x: usize| #[trigger] exv.contains(x) implies (x == 5) by {
            let k = choose|k: int| 0 <= k < exv.len() && exv[k] == x;
        }
        assert forall|x: usize| (x == 5) implies #[trigger] exv.contains(x) by {
            if x == 5 {
                assert(exv[0] == 5);
            }
        }
    }
    days.push(get_day_from_day_info(("5/01".to_string(), false, not_these), num_teams));
    let mut not_these: Vec<usize> = Vec::new();
    not_these.push(8);
    let ghost exv = not_these@;
    proof {
        assert(strictly_sorted(not_these@));
        assert forall|j: int| 0 <= j < not_these@.len() implies (#[trigger] not_these@[j] as int)
            < num_teams by {
            assert((not_these@[j] as int) < 13);
        }
        lemma_avail_count_distinct(num_teams as int, not_these@);
        lemma_count_below_all(not_these@, num_teams as int);
        assert forall|x: usize| #[trigger] exv.contains(x) implies (x == 8) by {
            let k = choose|k: int| 0 <= k < exv.len() && exv[k] == x;
        }
        assert forall|x: usize| (x == 8) implies #[trigger] exv.contains(x) by {
            if x == 8 {
                assert(exv[0] == 8);
            }
        }
    }
    days.push(get_day_from_day_info(("5/04".to_string(), true, not_these), num_teams));
    let mut not_these: Vec<usize> = Vec::new();
    not_these.push(4);
    let ghost exv = not_these@;
    proof {
        assert(strictly_sorted(not_these@));
        assert forall|j: int| 0 <= j < not_these@.len() implies (#[trigger] not_these@[j] as int)
            < num_teams by {
            assert((not_these@[j] as int) < 13);
        }
        lemma_avail_count_distinct(num_teams as int, not_these@);
        lemma_count_below_all(not_these@, num_teams as int);
        assert forall|x: usize| #[trigger] exv.contains(x) implies (x == 4) by {
            let k = choose|k: int| 0 <= k < exv.len() && exv[k] == x;
        }
        assert forall|x: usize| (x == 4) implies #[trigger] exv.contains(x) by {
            if x == 4 {
                assert(exv[0] == 4);
            }
        }
    }
    days.push(get_day_from_day_info(("5/06".to_string(), false, not_these), num_teams));
    let mut not_these: Vec<usize> = Vec::new();
    not_these.push(3);
    let ghost exv = not_these@;
    proof {
        assert(strictly_sorted(not_these@));
        assert forall|j: int| 0 <= j < not_these@.len() implies (#[trigger] not_these@[j] as int)
            < num_teams by {
            assert((not_these@[j] as int) < 13);
        }
        lemma_avail_count_distinct(num_teams as int, not_these@);
        lemma_count_below_all(not_these@, num_teams as int);
        assert forall|x: usize| #[trigger] exv.contains(x) implies (x == 3) by {
            let k = choose|k: int| 0 <= k < exv.len() && exv[k] == x;
        }
        assert forall|x: usize| (x == 3) implies #[trigger] exv.contains(x) by {
            if x == 3 {
                assert(exv[0] == 3);
            }
        }
    }
    days.push(get_day_from_day_info(("5/08".to_string(), false, not_these), num_teams));
    let mut not_these: Vec<usize> = Vec::new();
    not_these.push(7);
    let ghost exv = not_these@;
    proof {
        assert(strictly_sorted(not_these@));
        assert forall|j: int| 0 <= j < not_these@.len() implies (#[trigger] not_these@[j] as int)
            < num_teams by {
            assert((not_these@[j] as int) < 13);
        }
        lemma_avail_count_distinct(num_teams as int, not_these@);
        lemma_count_below_all(not_these@, num_teams as int);
        assert forall|x: usize| #[trigger] exv.contains(x) implies (x == 7) by {
            let k = choose|k: int| 0 <= k < exv.len() && exv[k] == x;
        }
        assert forall|x: usize| (x == 7) implies #[trigger] exv.contains(x) by {
            if x == 7 {
                assert(exv[0] == 7);
            }
        }
    }
    days.push(get_day_from_day_info(("5/11".to_string(), true, not_these), num_teams));
    let mut not_these: Vec<usize> = Vec::new();
    not_these.push(2);
    let ghost exv = not_these@;
    proof {
        assert(strictly_sorted(not_these@));
        assert forall|j: int| 0 <= j < not_these@.len() implies (#[trigger] not_these@[j] as int)
            < num_teams by {
            assert((not_these@[j] as int) < 13);
        }
        lemma_avail_count_distinct(num_teams as int, not_these@);
        lemma_count_below_all(not_these@, num_teams as int);
        assert forall|x: usize| #[trigger] exv.contains(x) implies (x == 2) by {
            let k = choose|k: int| 0 <= k < exv.len() && exv[k] == x;
        }
        assert forall|x: usize| (x == 2) implies #[trigger] exv.contains(x) by {
            if x == 2 {
                assert(exv[0] == 2);
            }
        }
    }
    days.push(get_day_from_day_info(("5/13".to_string(), false, not_these), num_teams));
    let mut not_these: Vec<usize> = Vec::new();
    not_these.push(1);
    let ghost exv = not_these@;
    proof {
        assert(strictly_sorted(not_these@));
        assert forall|j: int| 0 <= j < not_these@.len() implies (#[trigger] not_these@[j] as int)
            < num_teams by {
            assert((not_these@[j] as int) < 13);
        }
        lemma_avail_count_distinct(num_teams as int, not_these@);
        lemma_count_below_all(not_these@, num_teams as int);
        assert forall|x: usize| #[trigger] exv.contains(x) implies (x == 1) by {
            let k = choose|k: int| 0 <= k < exv.len() && exv[k] == x;
        }
        assert forall|x: usize| (x == 1) implies #[trigger] exv.contains(x) by {
            if x == 1 {
                assert(exv[0] == 1);
            }
        }
    }
    days.push(get_day_from_day_info(("5/15".to_string(), false, not_these), num_teams));
    let mut not_these: Vec<usize> = Vec::new();
    not_these.push(6);
    let ghost exv = not_these@;
    proof {
        assert(strictly_sorted(not_these@));
        assert forall|j: int| 0 <= j < not_these@.len() implies (#[trigger] not_these@[j] as int)
            < num_teams by {
            assert((not_these@[j] as int) < 13);
        }
        lemma_avail_count_distinct(num_teams as int, not_these@);
        lemma_count_below_all(not_these@, num_teams as int);
        assert forall|x: usize| #[trigger] exv.contains(x) implies (x == 6) by {
            let k = choose|k: int| 0 <= k < exv.len() && exv[k] == x;
        }
        assert forall|x: usize| (x == 6) implies #[trigger] exv.contains(x) by {
            if x == 6 {
                assert(exv[0] == 6);
            }
        }
    }
    days.push(get_day_from_day_info(("5/18".to_string(), true, not_these), num_teams));
    proof {
        assert forall|d: int|
            0 <= d < days@.len() implies strictly_sorted(#[trigger] days@[d]@.teams_remaining)
            && days@[d]@.games.len() == 0 && days@[d]@.teams_remaining.len() % 2 == 0 by {}
    }
    days
}

/// A sample calendar: each entry is a date label, a weekend flag, and the
/// team indices unavailable that day. Every exclusion list here has odd size and
/// its indices lie below 23, so with an odd roster of at least 23 teams
/// every day's available count is even.
pub fn get_2023_aaa_softball_days(num_teams: usize) -> (r: Vec<Day>)
    requires
        num_teams % 2 == 1,
        num_teams >= 23,
    ensures
        r@.len() == 16,
        forall|d: int|
            0 <= d < r@.len() ==> strictly_sorted(#[trigger] r@[d]@.teams_remaining)
                && r@[d]@.games.len() == 0 && r@[d]@.teams_remaining.len() % 2 == 0,
        r@[0]@.date == "3/23"@,
        r@[0]@.is_weekend == true,
        forall|x: usize|
            r@[0]@.teams_remaining.contains(x) <==> (x < num_teams && (x != 22)),
        r@[1]@.date == "3/27"@,
        r@[1]@.is_weekend == false,
        forall|x: usize|
            r@[1]@.teams_remaining.contains(x) <==> (x < num_teams && (x != 3)),
        r@[2]@.date == "3/30"@,
        r@[2]@.is_weekend == true,
        forall|x: usize|
            r@[2]@.teams_remaining.contains(x) <==> (x < num_teams && (x != 21)),
        r@[3]@.date == "4/03"@,
        r@[3]@.is_weekend == false,
        forall|x: usize|
            r@[3]@.teams_remaining.contains(x) <==> (x < num_teams && (x != 4)),
        r@[4]@.date == "4/13"@,
        r@[4]@.is_weekend == true,
        forall|x: usize|
            r@[4]@.teams_remaining.contains(x) <==> (x < num_teams && (x != 4 && x != 5 && x != 6 && x != 7 && x != 8 && x != 9 && x != 10 && x != 11 && x != 12 && x != 13 && x != 14 && x != 15 && x != 16 && x != 17 && x != 18 && x != 19 && x != 20 && x != 21 && x != 22)),
        r@[5]@.date == "4/17"@,
        r@[5]@.is_weekend == false,
        forall|x: usize|
            r@[5]@.teams_remaining.contains(x) <==> (x < num_teams && (x != 5)),
        r@[6]@.date == "4/20"@,
        r@[6]@.is_weekend == true,
        forall|x: usize|
            r@[6]@.teams_remaining.contains(x) <==> (x < num_teams && (x != 0 && x != 1 && x != 2)),
        r@[7]@.date == "4/24"@,
        r@[7]@.is_weekend == false,
        forall|x: usize|
            r@[7]@.teams_remaining.contains(x) <==> (x < num_teams && (x != 0 && x != 1 && x != 2)),
        r@[8]@.date == "4/27"@,
        r@[8]@.is_weekend == true,
        forall|x: usize|
            r@[8]@.teams_remaining.contains(x) <==> (x < num_teams && (x != 19)),
        r@[9]@.date == "4/29"@,
        r@[9]@.is_weekend == false,
        forall|x: usize|
            r@[9]@.teams_remaining.contains(x) <==> (x < num_teams && (x != 6)),
        r@[10]@.date == "5/04"@,
        r@[10]@.is_weekend == true,
        forall|x: usize|
            r@[10]@.teams_remaining.contains(x) <==> (x < num_teams && (x != 18)),
        r@[11]@.date == "5/06"@,
        r@[11]@.is_weekend == false,
        forall|x: usize|
            r@[11]@.teams_remaining.contains(x) <==> (x < num_teams && (x != 8)),
        r@[12]@.date == "5/08"@,
        r@[12]@.is_weekend == false,
        forall|x: usize|
            r@[12]@.teams_remaining.contains(x) <==> (x < num_teams && (x != 3 && x != 7 && x != 9 && x != 10 && x != 11 && x != 12 && x != 13 && x != 14 && x != 15)),
        r@[13]@.date == "5/11"@,
        r@[13]@.is_weekend == true,
        forall|x: usize|
            r@[13]@.teams_remaining.contains(x) <==> (x < num_teams && (x != 17)),
        r@[14]@.date == "5/13"@,
        r@[14]@.is_weekend == false,
        forall|x: usize|
            r@[14]@.teams_remaining.contains(x) <==> (x < num_teams && (x != 10)),
        r@[15]@.date == "5/18"@,
        r@[15]@.is_weekend == true,
        forall|x: usize|
            r@[15]@.teams_remaining.contains(x) <==> (x < num_teams && (x != 16)),
{
    let mut days: Vec<Day> = Vec::new();
    let mut not_these: Vec<usize> = Vec::new();
    not_these.push(22);
    let ghost exv = not_these@;
    proof {
        assert(strictly_sorted(not_these@));
        assert forall|j: int| 0 <= j < not_these@.len() implies (#[trigger] not_these@[j] as int)
            < num_teams by {
            assert((not_these@[j] as int) < 23);
        }
        lemma_avail_count_distinct(num_teams as int, not_these@);
        lemma_count_below_all(not_these@, num_teams as int);
        assert forall|x: usize| #[trigger] exv.contains(x) implies (x == 22) by {
            let k = choose|k: int| 0 <= k < exv.len() && exv[k] == x;
        }
        assert forall|x: usize| (x == 22) implies #[trigger] exv.contains(x) by {
            if x == 22 {
                assert(exv[0] == 22);
            }
        }
    }
    days.push(get_day_from_day_info(("3/23".to_string(), true, not_these), num_teams));
    let mut not_these: Vec<usize> = Vec::new();
    not_these.push(3);
    let ghost exv = not_these@;
    proof {
        assert(strictly_sorted(not_these@));
        assert forall|j: int| 0 <= j < not_these@.len() implies (#[trigger] not_these@[j] as int)
            < num_teams by {
            assert((not_these@[j] as int) < 23);
        }
        lemma_avail_count_distinct(num_teams as int, not_these@);
        lemma_count_below_all(not_these@, num_teams as int);
        assert forall|x: usize| #[trigger] exv.contains(x) implies (x == 3) by {
            let k = choose|k: int| 0 <= k < exv.len() && exv[k] == x;
        }
        assert forall|x: usize| (x == 3) implies #[trigger] exv.contains(x) by {
            if x == 3 {
                assert(exv[0] == 3);
            }
        }
    }
    days.push(get_day_from_day_info(("3/27".to_string(), false, not_these), num_teams));
    let mut not_these: Vec<usize> = Vec::new();
    not_these.push(21);
    let ghost exv = not_these@;
    proof {
        assert(strictly_sorted(not_these@));
        assert forall|j: int| 0 <= j < not_these@.len() implies (#[trigger] not_these@[j] as int)
            < num_teams by {
            assert((not_these@[j] as int) < 23);
        }
        lemma_avail_count_distinct(num_teams as int, not_these@);
        lemma_count_below_all(not_these@, num_teams as int);
        assert forall|x: usize| #[trigger] exv.contains(x) implies (x == 21) by {
            let k = choose|k: int| 0 <= k < exv.len() && exv[k] == x;
        }
        assert forall|x: usize| (x == 21) implies #[trigger] exv.contains(x) by {
            if x == 21 {
                assert(exv[0] == 21);
            }
        }
    }
    days.push(get_day_from_day_info(("3/30".to_string(), true, not_these), num_teams));
    let mut not_these: Vec<usize> = Vec::new();
    not_these.push(4);
    let ghost exv = not_these@;
    proof {
        assert(strictly_sorted(not_these@));
        assert forall|j: int| 0 <= j < not_these@.len() implies (#[trigger] not_these@[j] as int)
            < num_teams by {
            assert((not_these@[j] as int) < 23);
        }
        lemma_avail_count_distinct(num_teams as int, not_these@);
        lemma_count_below_all(not_these@, num_teams as int);
        assert forall|x: usize| #[trigger] exv.contains(x) implies (x == 4) by {
            let k = choose|k: int| 0 <= k < exv.len() && exv[k] == x;
        }
        assert forall|x: usize| (x == 4) implies #[trigger] exv.contains(x) by {
            if x == 4 {
                assert(exv[0] == 4);
            }
        }
    }
    days.push(get_day_from_day_info(("4/03".to_string(), false, not_these), num_teams));
    let mut not_these: Vec<usize> = Vec::new();
    not_these.push(4);
    not_these.push(5);
    not_these.push(6);
    not_these.push(7);
    not_these.push(8);
    not_these.push(9);
    not_these.push(10);
    not_these.push(11);
    not_these.push(12);
    not_these.push(13);
    not_these.push(14);
    not_these.push(15);
    not_these.push(16);
    not_these.push(17);
    not_these.push(18);
    not_these.push(19);
    not_these.push(20);
    not_these.push(21);
    not_these.push(22);
    let ghost exv = not_these@;
    proof {
        assert(strictly_sorted(not_these@));
        assert forall|j: int| 0 <= j < not_these@.len() implies (#[trigger] not_these@[j] as int)
            < num_teams by {
            assert((not_these@[j] as int) < 23);
        }
        lemma_avail_count_distinct(num_teams as int, not_these@);
        lemma_count_below_all(not_these@, num_teams as int);
        assert forall|x: usize| #[trigger] exv.contains(x) implies (x == 4 || x == 5 || x == 6 || x == 7 || x == 8 || x == 9 || x == 10 || x == 11 || x == 12 || x == 13 || x == 14 || x == 15 || x == 16 || x == 17 || x == 18 || x == 19 || x == 20 || x == 21 || x == 22) by {
            let k = choose|k: int| 0 <= k < exv.len() && exv[k] == x;
        }
        assert forall|x: usize| (x == 4 || x == 5 || x == 6 || x == 7 || x == 8 || x == 9 || x == 10 || x == 11 || x == 12 || x == 13 || x == 14 || x == 15 || x == 16 || x == 17 || x == 18 || x == 19 || x == 20 || x == 21 || x == 22) implies #[trigger] exv.contains(x) by {
            if x == 4 {
                assert(exv[0] == 4);
            }
            if x == 5 {
                assert(exv[1] == 5);
            }
            if x == 6 {
                assert(exv[2] == 6);
            }
            if x == 7 {
                assert(exv[3] == 7);
            }
            if x == 8 {
                assert(exv[4] == 8);
            }
            if x == 9 {
                assert(exv[5] == 9);
            }
            if x == 10 {
                assert(exv[6] == 10);
            }
            if x == 11 {
                assert(exv[7] == 11);
            }
            if x == 12 {
                assert(exv[8] == 12);
            }
            if x == 13 {
                assert(exv[9] == 13);
            }
            if x == 14 {
                assert(exv[10] == 14);
            }
            if x == 15 {
                assert(exv[11] == 15);
            }
            if x == 16 {
                assert(exv[12] == 16);
            }
            if x == 17 {
                assert(exv[13] == 17);
            }
            if x == 18 {
                assert(exv[14] == 18);
            }
            if x == 19 {
                assert(exv[15] == 19);
            }
            if x == 20 {
                assert(exv[16] == 20);
            }
            if x == 21 {
                assert(exv[17] == 21);
            }
            if x == 22 {
                assert(exv[18] == 22);
            }
        }
    }
    days.push(get_day_from_day_info(("4/13".to_string(), true, not_these), num_teams));
    let mut not_these: Vec<usize> = Vec::new();
    not_these.push(5);
    let ghost exv = not_these@;
    proof {
        assert(strictly_sorted(not_these@));
        assert forall|j: int| 0 <= j < not_these@.len() implies (#[trigger] not_these@[j] as int)
            < num_teams by {
            assert((not_these@[j] as int) < 23);
        }
        lemma_avail_count_distinct(num_teams as int, not_these@);
        lemma_count_below_all(not_these@, num_teams as int);
        assert forall|x: usize| #[trigger] exv.contains(x) implies (x == 5) by {
            let k = choose|k: int| 0 <= k < exv.len() && exv[k] == x;
        }
        assert forall|x: usize| (x == 5) implies #[trigger] exv.contains(x) by {
            if x == 5 {
                assert(exv[0] == 5);
            }
        }
    }
    days.push(get_day_from_day_info(("4/17".to_string(), false, not_these), num_teams));
    let mut not_these: Vec<usize> = Vec::new();
    not_these.push(0);
    not_these.push(1);
    not_these.push(2);
    let ghost exv = not_these@;
    proof {
        assert(strictly_sorted(not_these@));
        assert forall|j: int| 0 <= j < not_these@.len() implies (#[trigger] not_these@[j] as int)
            < num_teams by {
            assert((not_these@[j] as int) < 23);
        }
        lemma_avail_count_distinct(num_teams as int, not_these@);
        lemma_count_below_all(not_these@, num_teams as int);
        assert forall|x: usize| #[trigger] exv.contains(x) implies (x == 0 || x == 1 || x == 2) by {
            let k = choose|k: int| 0 <= k < exv.len() && exv[k] == x;
        }
        assert forall|x: usize| (x == 0 || x == 1 || x == 2) implies #[trigger] exv.contains(x) by {
            if x == 0 {
                assert(exv[0] == 0);
            }
            if x == 1 {
                assert(exv[1] == 1);
            }
            if x == 2 {
                assert(exv[2] == 2);
            }
        }
    }
    days.push(get_day_from_day_info(("4/20".to_string(), true, not_these), num_teams));
    let mut not_these: Vec<usize> = Vec::new();
    not_these.push(0);
    not_these.push(1);
    not_these.push(2);
    let ghost exv = not_these@;
    proof {
        assert(strictly_sorted(not_these@));
        assert forall|j: int| 0 <= j < not_these@.len() implies (#[trigger] not_these@[j] as int)
            < num_teams by {
            assert((not_these@[j] as int) < 23);
        }
        lemma_avail_count_distinct(num_teams as int, not_these@);
        lemma_count_below_all(not_these@, num_teams as int);
        assert forall|x: usize| #[trigger] exv.contains(x) implies (x == 0 || x == 1 || x == 2) by {
            let k = choose|k: int| 0 <= k < exv.len() && exv[k] == x;
        }
        assert forall|x: usize| (x == 0 || x == 1 || x == 2) implies #[trigger] exv.contains(x) by {
            if x == 0 {
                assert(exv[0] == 0);
            }
            if x == 1 {
                assert(exv[1] == 1);
            }
            if x == 2 {
                assert(exv[2] == 2);
            }
        }
    }
    days.push(get_day_from_day_info(("4/24".to_string(), false, not_these), num_teams));
    let mut not_these: Vec<usize> = Vec::new();
    not_these.push(19);
    let ghost exv = not_these@;
    proof {
        assert(strictly_sorted(not_these@));
        assert forall|j: int| 0 <= j < not_these@.len() implies (#[trigger] not_these@[j] as int)
            < num_teams by {
            assert((not_these@[j] as int) < 23);
        }
        lemma_avail_count_distinct(num_teams as int, not_these@);
        lemma_count_below_all(not_these@, num_teams as int);
        assert forall|x: usize| #[trigger] exv.contains(x) implies (x == 19) by {
            let k = choose|k: int| 0 <= k < exv.len() && exv[k] == x;
        }
        assert forall|x: usize| (x == 19) implies #[trigger] exv.contains(x) by {
            if x == 19 {
                assert(exv[0] == 19);
            }
        }
    }
    days.push(get_day_from_day_info(("4/27".to_string(), true, not_these), num_teams));
    let mut not_these: Vec<usize> = Vec::new();
    not_these.push(6);
    let ghost exv = not_these@;
    proof {
        assert(strictly_sorted(not_these@));
        assert forall|j: int| 0 <= j < not_these@.len() implies (#[trigger] not_these@[j] as int)
            < num_teams by {
            assert((not_these@[j] as int) < 23);
        }
        lemma_avail_count_distinct(num_teams as int, not_these@);
        lemma_count_below_all(not_these@, num_teams as int);
        assert forall|x: usize| #[trigger] exv.contains(x) implies (x == 6) by {
            let k = choose|k: int| 0 <= k < exv.len() && exv[k] == x;
        }
        assert forall|x: usize| (x == 6) implies #[trigger] exv.contains(x) by {
            if x == 6 {
                assert(exv[0] == 6);
            }
        }
    }
    days.push(get_day_from_day_info(("4/29".to_string(), false, not_these), num_teams));
    let mut not_these: Vec<usize> = Vec::new();
    not_these.push(18);
    let ghost exv = not_these@;
    proof {
        assert(strictly_sorted(not_these@));
        assert forall|j: int| 0 <= j < not_these@.len() implies (#[trigger] not_these@[j] as int)
            < num_teams by {
            assert((not_these@[j] as int) < 23);
        }
        lemma_avail_count_distinct(num_teams as int, not_these@);
        lemma_count_below_all(not_these@, num_teams as int);
        assert forall|x: usize| #[trigger] exv.contains(x) implies (x == 18) by {
            let k = choose|k: int| 0 <= k < exv.len() && exv[k] == x;
        }
        assert forall|x: usize| (x == 18) implies #[trigger] exv.contains(x) by {
            if x == 18 {
                assert(exv[0] == 18);
            }
        }
    }
    days.push(get_day_from_day_info(("5/04".to_string(), true, not_these), num_teams));
    let mut not_these: Vec<usize> = Vec::new();
    not_these.push(8);
    let ghost exv = not_these@;
    proof {
        assert(strictly_sorted(not_these@));
        assert forall|j: int| 0 <= j < not_these@.len() implies (#[trigger] not_these@[j] as int)
            < num_teams by {
            assert((not_these@[j] as int) < 23);
        }
        lemma_avail_count_distinct(num_teams as int, not_these@);
        lemma_count_below_all(not_these@, num_teams as int);
        assert forall|x: usize| #[trigger] exv.contains(x) implies (x == 8) by {
            let k = choose|k: int| 0 <= k < exv.len() && exv[k] == x;
        }
        assert forall|x: usize| (x == 8) implies #[trigger] exv.contains(x) by {
            if x == 8 {
                assert(exv[0] == 8);
            }
        }
    }
    days.push(get_day_from_day_info(("5/06".to_string(), false, not_these), num_teams));
    let mut not_these: Vec<usize> = Vec::new();
    not_these.push(3);
    not_these.push(7);
    not_these.push(9);
    not_these.push(10);
    not_these.push(11);
    not_these.push(12);
    not_these.push(13);
    not_these.push(14);
    not_these.push(15);
    let ghost exv = not_these@;
    proof {
        assert(strictly_sorted(not_these@));
        assert forall|j: int| 0 <= j < not_these@.len() implies (#[trigger] not_these@[j] as int)
            < num_teams by {
            assert((not_these@[j] as int) < 23);
        }
        lemma_avail_count_distinct(num_teams as int, not_these@);
        lemma_count_below_all(not_these@, num_teams as int);
        assert forall|x: usize| #[trigger] exv.contains(x) implies (x == 3 || x == 7 || x == 9 || x == 10 || x == 11 || x == 12 || x == 13 || x == 14 || x == 15) by {
            let k = choose|k: int| 0 <= k < exv.len() && exv[k] == x;
        }
        assert forall|x: usize| (x == 3 || x == 7 || x == 9 || x == 10 || x == 11 || x == 12 || x == 13 || x == 14 || x == 15) implies #[trigger] exv.contains(x) by {
            if x == 3 {
                assert(exv[0] == 3);
            }
            if x == 7 {
                assert(exv[1] == 7);
            }
            if x == 9 {
                assert(exv[2] == 9);
            }
            if x == 10 {
                assert(exv[3] == 10);
            }
            if x == 11 {
                assert(exv[4] == 11);
            }
            if x == 12 {
                assert(exv[5] == 12);
            }
            if x == 13 {
                assert(exv[6] == 13);
            }
            if x == 14 {
                assert(exv[7] == 14);
            }
            if x == 15 {
                assert(exv[8] == 15);
            }
        }
    }
    days.push(get_day_from_day_info(("5/08".to_string(), false, not_these), num_teams));
    let mut not_these: Vec<usize> = Vec::new();
    not_these.push(17);
    let ghost exv = not_these@;
    proof {
        assert(strictly_sorted(not_these@));
        assert forall|j: int| 0 <= j < not_these@.len() implies (#[trigger] not_these@[j] as int)
            < num_teams by {
            assert((not_these@[j] as int) < 23);
        }
        lemma_avail_count_distinct(num_teams as int, not_these@);
        lemma_count_below_all(not_these@, num_teams as int);
        assert forall|x: usize| #[trigger] exv.contains(x) implies (x == 17) by {
            let k = choose|k: int| 0 <= k < exv.len() && exv[k] == x;
        }
        assert forall|x: usize| (x == 17) implies #[trigger] exv.contains(x) by {
            if x == 17 {
                assert(exv[0] == 17);
            }
        }
    }
    days.push(get_day_from_day_info(("5/11".to_string(), true, not_these), num_teams));
    let mut not_these: Vec<usize> = Vec::new();
    not_these.push(10);
    let ghost exv = not_these@;
    proof {
        assert(strictly_sorted(not_these@));
        assert forall|j: int| 0 <= j < not_these@.len() implies (#[trigger] not_these@[j] as int)
            < num_teams by {
            assert((not_these@[j] as int) < 23);
        }
        lemma_avail_count_distinct(num_teams as int, not_these@);
        lemma_count_below_all(not_these@, num_teams as int);
        assert forall|x: usize| #[trigger] exv.contains(x) implies (x == 10) by {
            let k = choose|k: int| 0 <= k < exv.len() && exv[k] == x;
        }
        assert forall|x: usize| (x == 10) implies #[trigger] exv.contains(x) by {
            if x == 10 {
                assert(exv[0] == 10);
            }
        }
    }
    days.push(get_day_from_day_info(("5/13".to_string(), false, not_these), num_teams));
    let mut not_these: Vec<usize> = Vec::new();
    not_these.push(16);
    let ghost exv = not_these@;
    proof {
        assert(strictly_sorted(not_these@));
        assert forall|j: int| 0 <= j < not_these@.len() implies (#[trigger] not_these@[j] as int)
            < num_teams by {
            assert((not_these@[j] as int) < 23);
        }
        lemma_avail_count_distinct(num_teams as int, not_these@);
        lemma_count_below_all(not_these@, num_teams as int);
        assert forall|x: usize| #[trigger] exv.contains(x) implies (x == 16) by {
            let k = choose|k: int| 0 <= k < exv.len() && exv[k] == x;
        }
        assert forall|x: usize| (x == 16) implies #[trigger] exv.contains(x) by {
            if x == 16 {
                assert(exv[0] == 16);
            }
        }
    }
    days.push(get_day_from_day_info(("5/18".to_string(), true, not_these), num_teams));
    proof {
        assert forall|d: int|
            0 <= d < days@.len() implies strictly_sorted(#[trigger] days@[d]@.teams_remaining)
            && days@[d]@.games.len() == 0 && days@[d]@.teams_remaining.len() % 2 == 0 by {}
    }
    days
}

/// A sample calendar: each entry is a date label, a weekend flag, and the
/// team indices unavailable that day. No day excludes anyone, so the
/// roster must hold an even number of teams.
pub fn get_2024_aaa_softball_days(num_teams: usize) -> (r: Vec<Day>)
    requires
        num_teams % 2 == 0,
    ensures
        r@.len() == 15,
        forall|d: int|
            0 <= d < r@.len() ==> strictly_sorted(#[trigger] r@[d]@.teams_remaining)
                && r@[d]@.games.len() == 0 && r@[d]@.teams_remaining.len() % 2 == 0,
        r@[0]@.date == "3/23"@,
        r@[0]@.is_weekend == true,
        forall|x: usize|
            r@[0]@.teams_remaining.contains(x) <==> (x < num_teams && (true)),
        r@[1]@.date == "3/26"@,
        r@[1]@.is_weekend == false,
        forall|x: usize|
            r@[1]@.teams_remaining.contains(x) <==> (x < num_teams && (true)),
        r@[2]@.date == "3/30"@,
        r@[2]@.is_weekend == true,
        forall|x: usize|
            r@[2]@.teams_remaining.contains(x) <==> (x < num_teams && (true)),
        r@[3]@.date == "4/02"@,
        r@[3]@.is_weekend == false,
        forall|x: usize|
            r@[3]@.teams_remaining.contains(x) <==> (x < num_teams && (true)),
        r@[4]@.date == "4/16"@,
        r@[4]@.is_weekend == false,
        forall|x: usize|
            r@[4]@.teams_remaining.contains(x) <==> (x < num_teams && (true)),
        r@[5]@.date == "4/20"@,
        r@[5]@.is_weekend == true,
        forall|x: usize|
            r@[5]@.teams_remaining.contains(x) <==> (x < num_teams && (true)),
        r@[6]@.date == "4/23"@,
        r@[6]@.is_weekend == false,
        forall|x: usize|
            r@[6]@.teams_remaining.contains(x) <==> (x < num_teams && (true)),
        r@[7]@.date == "4/27"@,
        r@[7]@.is_weekend == true,
        forall|x: usize|
            r@[7]@.teams_remaining.contains(x) <==> (x < num_teams && (true)),
        r@[8]@.date == "4/30"@,
        r@[8]@.is_weekend == false,
        forall|x: usize|
            r@[8]@.teams_remaining.contains(x) <==> (x < num_teams && (true)),
        r@[9]@.date == "5/04"@,
        r@[9]@.is_weekend == true,
        forall|x: usize|
            r@[9]@.teams_remaining.contains(x) <==> (x < num_teams && (true)),
        r@[10]@.date == "5/07"@,
        r@[10]@.is_weekend == false,
        forall|x: usize|
            r@[10]@.teams_remaining.contains(x) <==> (x < num_teams && (true)),
        r@[11]@.date == "5/11"@,
        r@[11]@.is_weekend == true,
        forall|x: usize|
            r@[11]@.teams_remaining.contains(x) <==> (x < num_teams && (true)),
        r@[12]@.date == "5/14"@,
        r@[12]@.is_weekend == false,
        forall|x: usize|
            r@[12]@.teams_remaining.contains(x) <==> (x < num_teams && (true)),
        r@[13]@.date == "5/18"@,
        r@[13]@.is_weekend == true,
        forall|x: usize|
            r@[13]@.teams_remaining.contains(x) <==> (x < num_teams && (true)),
        r@[14]@.date == "5/21"@,
        r@[14]@.is_weekend == false,
        forall|x: usize|
            r@[14]@.teams_remaining.contains(x) <==> (x < num_teams && (true)),
{
    let mut days: Vec<Day> = Vec::new();
    let mut not_these: Vec<usize> = Vec::new();
    proof {
        assert(strictly_sorted(not_these@));
        lemma_avail_count_distinct(num_teams as int, not_these@);
        lemma_count_below_all(not_these@, num_teams as int);
    }
    days.push(get_day_from_day_info(("3/23".to_string(), true, not_these), num_teams));
    let mut not_these: Vec<usize> = Vec::new();
    proof {
        assert(strictly_sorted(not_these@));
        lemma_avail_count_distinct(num_teams as int, not_these@);
        lemma_count_below_all(not_these@, num_teams as int);
    }
    days.push(get_day_from_day_info(("3/26".to_string(), false, not_these), num_teams));
    let mut not_these: Vec<usize> = Vec::new();
    proof {
        assert(strictly_sorted(not_these@));
        lemma_avail_count_distinct(num_teams as int, not_these@);
        lemma_count_below_all(not_these@, num_teams as int);
    }
    days.push(get_day_from_day_info(("3/30".to_string(), true, not_these), num_teams));
    let mut not_these: Vec<usize> = Vec::new();
    proof {
        assert(strictly_sorted(not_these@));
        lemma_avail_count_distinct(num_teams as int, not_these@);
        lemma_count_below_all(not_these@, num_teams as int);
    }
    days.push(get_day_from_day_info(("4/02".to_string(), false, not_these), num_teams));
    let mut not_these: Vec<usize> = Vec::new();
    proof {
        assert(strictly_sorted(not_these@));
        lemma_avail_count_distinct(num_teams as int, not_these@);
        lemma_count_below_all(not_these@, num_teams as int);
    }
    days.push(get_day_from_day_info(("4/16".to_string(), false, not_these), num_teams));
    let mut not_these: Vec<usize> = Vec::new();
    proof {
        assert(strictly_sorted(not_these@));
        lemma_avail_count_distinct(num_teams as int, not_these@);
        lemma_count_below_all(not_these@, num_teams as int);
    }
    days.push(get_day_from_day_info(("4/20".to_string(), true, not_these), num_teams));
    let mut not_these: Vec<usize> = Vec::new();
    proof {
        assert(strictly_sorted(not_these@));
        lemma_avail_count_distinct(num_teams as int, not_these@);
        lemma_count_below_all(not_these@, num_teams as int);
    }
    days.push(get_day_from_day_info(("4/23".to_string(), false, not_these), num_teams));
    let mut not_these: Vec<usize> = Vec::new();
    proof {
        assert(strictly_sorted(not_these@));
        lemma_avail_count_distinct(num_teams as int, not_these@);
        lemma_count_below_all(not_these@, num_teams as int);
    }
    days.push(get_day_from_day_info(("4/27".to_string(), true, not_these), num_teams));
    let mut not_these: Vec<usize> = Vec::new();
    proof {
        assert(strictly_sorted(not_these@));
        lemma_avail_count_distinct(num_teams as int, not_these@);
        lemma_count_below_all(not_these@, num_teams as int);
    }
    days.push(get_day_from_day_info(("4/30".to_string(), false, not_these), num_teams));
    let mut not_these: Vec<usize> = Vec::new();
    proof {
        assert(strictly_sorted(not_these@));
        lemma_avail_count_distinct(num_teams as int, not_these@);
        lemma_count_below_all(not_these@, num_teams as int);
    }
    days.push(get_day_from_day_info(("5/04".to_string(), true, not_these), num_teams));
    let mut not_these: Vec<usize> = Vec::new();
    proof {
        assert(strictly_sorted(not_these@));
        lemma_avail_count_distinct(num_teams as int, not_these@);
        lemma_count_below_all(not_these@, num_teams as int);
    }
    days.push(get_day_from_day_info(("5/07".to_string(), false, not_these), num_teams));
    let mut not_these: Vec<usize> = Vec::new();
    proof {
        assert(strictly_sorted(not_these@));
        lemma_avail_count_distinct(num_teams as int, not_these@);
        lemma_count_below_all(not_these@, num_teams as int);
    }
    days.push(get_day_from_day_info(("5/11".to_string(), true, not_these), num_teams));
    let mut not_these: Vec<usize> = Vec::new();
    proof {
        assert(strictly_sorted(not_these@));
        lemma_avail_count_distinct(num_teams as int, not_these@);
        lemma_count_below_all(not_these@, num_teams as int);
    }
    days.push(get_day_from_day_info(("5/14".to_string(), false, not_these), num_teams));
    let mut not_these: Vec<usize> = Vec::new();
    proof {
        assert(strictly_sorted(not_these@));
        lemma_avail_count_distinct(num_teams as int, not_these@);
        lemma_count_below_all(not_these@, num_teams as int);
    }
    days.push(get_day_from_day_info(("5/18".to_string(), true, not_these), num_teams));
    let mut not_these: Vec<usize> = Vec::new();
    proof {
        assert(strictly_sorted(not_these@));
        lemma_avail_count_distinct(num_teams as int, not_these@);
        lemma_count_below_all(not_these@, num_teams as int);
    }
    days.push(get_day_from_day_info(("5/21".to_string(), false, not_these), num_teams));
    proof {
        assert forall|d: int|
            0 <= d < days@.len() implies strictly_sorted(#[trigger] days@[d]@.teams_remaining)
            && days@[d]@.games.len() == 0 && days@[d]@.teams_remaining.len() % 2 == 0 by {}
    }
    days
}

} // verus!
