//! Calendar assignment: games, days, and the backtracking day-assignment search.

use vstd::prelude::*;

use crate::pairs::count_occ;

verus! {

/// One required game: an unordered pair of team indices and the travel
/// distance between the two teams' leagues. The same pair appears once per
/// required instance.
#[derive(Clone, Copy, PartialEq, Eq, Structural, Debug)]
pub struct Game {
    pub ti0: usize,
    pub ti1: usize,
    pub distance: i32,
}

/// Where `g` lands when inserted into `s` from the right: after every element
/// whose distance is at most `g.distance`. Inserting each new element this way
/// keeps the sort stable.
pub open spec fn insert_by_dist_s(s: Seq<Game>, g: Game) -> Seq<Game>
    decreases s.len(),
{
    if s.len() > 0 && s.last().distance > g.distance {
        insert_by_dist_s(s.drop_last(), g).push(s.last())
    } else {
        s.push(g)
    }
}

/// Stable insertion sort of a game list, ascending by travel distance:
/// elements of equal distance keep their original relative order.
pub open spec fn sort_by_dist_s(s: Seq<Game>) -> Seq<Game>
    decreases s.len(),
{
    if s.len() == 0 {
        s
    } else {
        insert_by_dist_s(sort_by_dist_s(s.drop_last()), s.last())
    }
}

pub open spec fn sorted_by_dist(s: Seq<Game>) -> bool {
    forall|i: int, j: int| 0 <= i < j < s.len() ==> s[i].distance <= s[j].distance
}

proof fn lemma_insert_by_dist_sorted(s: Seq<Game>, g: Game)
    requires
        sorted_by_dist(s),
    ensures
        sorted_by_dist(insert_by_dist_s(s, g)),
        insert_by_dist_s(s, g).len() == s.len() + 1,
        forall|x: Game| insert_by_dist_s(s, g).contains(x) ==> s.contains(x) || x == g,
    decreases s.len(),
{
    if s.len() > 0 && s.last().distance > g.distance {
        assert(sorted_by_dist(s.drop_last()));
        lemma_insert_by_dist_sorted(s.drop_last(), g);
        let t = insert_by_dist_s(s.drop_last(), g);
        assert forall|x: Game| t.contains(x) implies x.distance <= g.distance
            || s.drop_last().contains(x) by {
            if s.drop_last().contains(x) {
            } else {
                assert(x == g);
            }
        }
        assert forall|i: int, j: int|
            0 <= i < j < t.push(s.last()).len() implies t.push(s.last())[i].distance <= t.push(
            s.last(),
        )[j].distance by {
            if j < t.len() {
            } else {
                let x = t[i];
                assert(t.contains(x));
                if s.drop_last().contains(x) {
                    let k = choose|k: int| 0 <= k < s.drop_last().len() && s.drop_last()[k] == x;
                    assert(s[k] == x);
                    assert(x.distance <= s.last().distance);
                }
            }
        }
        assert forall|x: Game| t.push(s.last()).contains(x) implies s.contains(x) || x == g by {
            if t.contains(x) {
                if s.drop_last().contains(x) {
                    let k = choose|k: int| 0 <= k < s.drop_last().len() && s.drop_last()[k] == x;
                    assert(s[k] == x);
                }
            } else {
                assert(x == s.last());
            }
        }
    } else {
        assert forall|i: int, j: int|
            0 <= i < j < s.push(g).len() implies s.push(g)[i].distance <= s.push(
            g,
        )[j].distance by {
            if j < s.len() {
            } else {
                if s.len() > 0 {
                    assert(s[i].distance <= s.last().distance);
                }
            }
        }
        assert forall|x: Game| s.push(g).contains(x) implies s.contains(x) || x == g by {
            let k = choose|k: int| 0 <= k < s.push(g).len() && s.push(g)[k] == x;
            if k < s.len() {
                assert(s[k] == x);
            }
        }
    }
}

pub proof fn lemma_sort_by_dist_sorted(s: Seq<Game>)
    ensures
        sorted_by_dist(sort_by_dist_s(s)),
        sort_by_dist_s(s).len() == s.len(),
    decreases s.len(),
{
    if s.len() > 0 {
        lemma_sort_by_dist_sorted(s.drop_last());
        lemma_insert_by_dist_sorted(sort_by_dist_s(s.drop_last()), s.last());
    }
}

/// Sorting reorders: every game of the sorted list comes from the input.
pub proof fn lemma_sort_by_dist_members(s: Seq<Game>)
    ensures
        forall|x: Game| #[trigger] sort_by_dist_s(s).contains(x) ==> s.contains(x),
    decreases s.len(),
{
    if s.len() > 0 {
        lemma_sort_by_dist_members(s.drop_last());
        lemma_sort_by_dist_sorted(s.drop_last());
        lemma_insert_by_dist_sorted(sort_by_dist_s(s.drop_last()), s.last());
        assert forall|x: Game| #[trigger] sort_by_dist_s(s).contains(x) implies s.contains(x) by {
            if sort_by_dist_s(s.drop_last()).contains(x) || x == s.last() {
                if x == s.last() {
                    assert(s[s.len() - 1] == x);
                } else {
                    assert(s.drop_last().contains(x));
                    let k = choose|k: int| 0 <= k < s.drop_last().len() && s.drop_last()[k] == x;
                    assert(s[k] == x);
                }
            }
        }
    }
}

/// Stable insertion sort of games, ascending by travel distance. Equal
/// distances keep the input order, so the result is fully determined by the
/// input.
pub fn sort_games_by_distance(games: &Vec<Game>) -> (r: Vec<Game>)
    ensures
        r@ == sort_by_dist_s(games@),
        sorted_by_dist(r@),
        r@.len() == games@.len(),
{
    let mut out: Vec<Game> = Vec::new();
    let mut i: usize = 0;
    while i < games.len()
        invariant
            i <= games@.len(),
            out@ == sort_by_dist_s(games@.take(i as int)),
            sorted_by_dist(out@),
        decreases games@.len() - i,
    {
        let g = games[i];
        let mut j: usize = out.len();
        proof {
            assert(out@.take(j as int) =~= out@);
            assert(insert_by_dist_s(out@, g) + out@.skip(j as int) =~= insert_by_dist_s(out@, g));
        }
        while j > 0 && out[j - 1].distance > g.distance
            invariant
                j <= out@.len(),
                forall|k: int| j <= k < out@.len() ==> out@[k].distance > g.distance,
                insert_by_dist_s(out@, g) == insert_by_dist_s(out@.take(j as int), g)
                    + out@.skip(j as int),
            decreases j,
        {
            proof {
                let pre = out@.take(j as int);
                assert(pre.drop_last() =~= out@.take(j - 1));
                assert(pre.last() == out@[j - 1]);
                assert(insert_by_dist_s(out@.take(j - 1), g).push(out@[j - 1]) + out@.skip(j as int)
                    =~= insert_by_dist_s(out@.take(j - 1), g) + out@.skip(j - 1));
            }
            j = j - 1;
        }
        proof {
            let pre = out@.take(j as int);
            assert(insert_by_dist_s(pre, g) == pre.push(g));
            assert(pre.push(g) + out@.skip(j as int) =~= out@.insert(j as int, g));
            lemma_insert_by_dist_sorted(out@, g);
            assert(games@.take(i + 1).drop_last() =~= games@.take(i as int));
            assert(games@.take(i + 1).last() == games@[i as int]);
        }
        out.insert(j, g);
        i = i + 1;
    }
    proof {
        assert(games@.take(games@.len() as int) =~= games@);
        lemma_sort_by_dist_sorted(games@);
    }
    out
}

/// Ascending unique: each entry strictly below the next.
pub open spec fn strictly_sorted(s: Seq<usize>) -> bool {
    forall|i: int, j: int| 0 <= i < j < s.len() ==> s[i] < s[j]
}

/// The sequence with every occurrence of `t` dropped, order kept.
pub open spec fn remove_all_s(s: Seq<usize>, t: usize) -> Seq<usize>
    decreases s.len(),
{
    if s.len() == 0 {
        s
    } else if s[0] == t {
        remove_all_s(s.drop_first(), t)
    } else {
        seq![s[0]] + remove_all_s(s.drop_first(), t)
    }
}

pub proof fn lemma_remove_all_props(s: Seq<usize>, t: usize)
    ensures
        forall|x: usize| remove_all_s(s, t).contains(x) <==> (s.contains(x) && x != t),
        remove_all_s(s, t).len() == s.len() - count_occ(t, s),
        strictly_sorted(s) ==> strictly_sorted(remove_all_s(s, t)),
        forall|k: int|
            0 <= k < remove_all_s(s, t).len() ==> s.contains(#[trigger] remove_all_s(s, t)[k]),
    decreases s.len(),
{
    if s.len() == 0 {
        assert forall|x: usize| remove_all_s(s, t).contains(x) implies (s.contains(x) && x != t) by {}
    } else {
        lemma_remove_all_props(s.drop_first(), t);
        let r = remove_all_s(s, t);
        let rr = remove_all_s(s.drop_first(), t);
        assert forall|x: usize| r.contains(x) implies (s.contains(x) && x != t) by {
            if s[0] == t {
                assert(rr.contains(x));
                let k = choose|k: int| 0 <= k < s.drop_first().len() && s.drop_first()[k] == x;
                assert(s[k + 1] == x);
            } else {
                let k = choose|k: int| 0 <= k < r.len() && r[k] == x;
                if k == 0 {
                    assert(x == s[0]);
                    assert(s[0] != t);
                } else {
                    assert(rr[k - 1] == x);
                    assert(rr.contains(x));
                    let m = choose|m: int| 0 <= m < s.drop_first().len() && s.drop_first()[m] == x;
                    assert(s[m + 1] == x);
                }
            }
        }
        assert forall|x: usize| s.contains(x) && x != t implies r.contains(x) by {
            let k = choose|k: int| 0 <= k < s.len() && s[k] == x;
            if k == 0 {
                assert(s[0] == x && x != t);
                assert(r[0] == x);
            } else {
                assert(s.drop_first()[k - 1] == x);
                assert(s.drop_first().contains(x));
                assert(rr.contains(x));
                let m = choose|m: int| 0 <= m < rr.len() && rr[m] == x;
                if s[0] == t {
                } else {
                    assert(r[m + 1] == x);
                }
            }
        }
        if strictly_sorted(s) {
            assert(strictly_sorted(s.drop_first())) by {
                assert forall|i: int, j: int|
                    0 <= i < j < s.drop_first().len() implies s.drop_first()[i] < s.drop_first()[j] by {
                    assert(s[i + 1] < s[j + 1]);
                }
            }
            assert(strictly_sorted(r)) by {
                if s[0] != t {
                    assert forall|i: int, j: int| 0 <= i < j < r.len() implies r[i] < r[j] by {
                        if i == 0 {
                            assert(r[j] == rr[j - 1]);
                            assert(s.drop_first().contains(rr[j - 1]));
                            let m = choose|m: int|
                                0 <= m < s.drop_first().len() && s.drop_first()[m] == rr[j - 1];
                            assert(s[0] < s[m + 1]);
                        } else {
                            assert(r[i] == rr[i - 1] && r[j] == rr[j - 1]);
                        }
                    }
                }
            }
        }
        assert forall|k: int| 0 <= k < r.len() implies s.contains(#[trigger] r[k]) by {
            assert(r.contains(r[k]));
        }
    }
}

/// In an ascending unique sequence each value occurs at most once.
pub proof fn lemma_sorted_count(s: Seq<usize>, t: usize)
    requires
        strictly_sorted(s),
    ensures
        count_occ(t, s) == if s.contains(t) {
            1int
        } else {
            0int
        },
    decreases s.len(),
{
    if s.len() > 0 {
        assert(strictly_sorted(s.drop_first())) by {
            assert forall|i: int, j: int|
                0 <= i < j < s.drop_first().len() implies s.drop_first()[i] < s.drop_first()[j] by {
                assert(s[i + 1] < s[j + 1]);
            }
        }
        lemma_sorted_count(s.drop_first(), t);
        if s[0] == t {
            assert(!s.drop_first().contains(t)) by {
                if s.drop_first().contains(t) {
                    let k = choose|k: int|
                        0 <= k < s.drop_first().len() && s.drop_first()[k] == t;
                    assert(s[0] < s[k + 1]);
                }
            }
        } else {
            if s.contains(t) {
                let k = choose|k: int| 0 <= k < s.len() && s[k] == t;
                assert(s.drop_first()[k - 1] == t);
                assert(s.drop_first().contains(t));
            }
            if s.drop_first().contains(t) {
                let k = choose|k: int| 0 <= k < s.drop_first().len() && s.drop_first()[k] == t;
                assert(s[k + 1] == t);
            }
        }
    }
}

proof fn lemma_remove_all_push(s: Seq<usize>, x: usize, t: usize)
    ensures
        remove_all_s(s.push(x), t) == remove_all_s(s, t) + if x == t {
            Seq::<usize>::empty()
        } else {
            seq![x]
        },
    decreases s.len(),
{
    if s.len() == 0 {
        assert(s.push(x).drop_first() =~= Seq::<usize>::empty());
        if x == t {
            assert(remove_all_s(s, t) + Seq::<usize>::empty() =~= remove_all_s(s.push(x), t));
        } else {
            assert(remove_all_s(s, t) + seq![x] =~= seq![x]);
            assert(remove_all_s(s.push(x), t) == seq![s.push(x)[0]] + remove_all_s(
                s.push(x).drop_first(),
                t,
            ));
        }
    } else {
        assert(s.push(x).drop_first() =~= s.drop_first().push(x));
        lemma_remove_all_push(s.drop_first(), x, t);
        if s[0] != t {
            assert(seq![s[0]] + (remove_all_s(s.drop_first(), t) + (if x == t {
                Seq::<usize>::empty()
            } else {
                seq![x]
            })) =~= (seq![s[0]] + remove_all_s(s.drop_first(), t)) + (if x == t {
                Seq::<usize>::empty()
            } else {
                seq![x]
            }));
        }
    }
}

/// Does the ascending list contain `t`?
pub fn contains_team(v: &Vec<usize>, t: usize) -> (r: bool)
    ensures
        r == v@.contains(t),
{
    let mut i: usize = 0;
    while i < v.len()
        invariant
            i <= v@.len(),
            forall|k: int| 0 <= k < i ==> v@[k] != t,
        decreases v@.len() - i,
    {
        if v[i] == t {
            return true;
        }
        i = i + 1;
    }
    false
}

/// A copy of the list with every occurrence of `t` dropped.
pub fn remove_team(v: &Vec<usize>, t: usize) -> (r: Vec<usize>)
    ensures
        r@ == remove_all_s(v@, t),
{
    let mut out: Vec<usize> = Vec::new();
    let mut i: usize = 0;
    proof {
        assert(v@.take(0) =~= Seq::<usize>::empty());
    }
    while i < v.len()
        invariant
            i <= v@.len(),
            out@ == remove_all_s(v@.take(i as int), t),
        decreases v@.len() - i,
    {
        proof {
            lemma_remove_all_push(v@.take(i as int), v@[i as int], t);
            assert(v@.take(i + 1) =~= v@.take(i as int).push(v@[i as int]));
        }
        if v[i] != t {
            out.push(v[i]);
            proof {
                assert(out@ =~= remove_all_s(v@.take(i as int), t) + seq![v@[i as int]]);
            }
        } else {
            proof {
                assert(out@ =~= remove_all_s(v@.take(i as int), t) + Seq::<usize>::empty());
            }
        }
        i = i + 1;
    }
    proof {
        assert(v@.take(v@.len() as int) =~= v@);
    }
    out
}

/// The adjacency view of a grouped game map: each key with its partner list.
pub open spec fn map_v(m: Seq<(usize, Vec<usize>)>) -> Seq<(usize, Seq<usize>)> {
    m.map_values(|e: (usize, Vec<usize>)| (e.0, e.1@))
}

/// The recursive day-feasibility check over a grouped pair map: can the
/// whole available set be paired off using the listed pairs? Entries are
/// scanned in order; an entry whose key is no longer available is skipped; a
/// key still available must pair with one of its listed partners now, since
/// no later entry can pair it.
pub open spec fn day_rec_s(map: Seq<(usize, Seq<usize>)>, idx: int, teams: Seq<usize>) -> bool
    decreases map.len() - idx, 1int, 0int
{
    if teams.len() == 0 {
        true
    } else if idx < 0 || idx >= map.len() {
        false
    } else if teams.contains(map[idx].0) {
        day_try_s(map, idx, teams, 0)
    } else {
        day_rec_s(map, idx + 1, teams)
    }
}

/// Try each partner of the entry at `idx` in turn for its key.
pub open spec fn day_try_s(map: Seq<(usize, Seq<usize>)>, idx: int, teams: Seq<usize>, pj: int) -> bool
    decreases map.len() - idx, 0int, map[idx].1.len() - pj
{
    if idx < 0 || idx >= map.len() || pj < 0 || pj >= map[idx].1.len() {
        false
    } else {
        let t0 = map[idx].0;
        let t1 = map[idx].1[pj];
        (teams.contains(t1) && day_rec_s(
            map,
            idx + 1,
            remove_all_s(remove_all_s(teams, t0), t1),
        )) || day_try_s(map, idx, teams, pj + 1)
    }
}

/// The recursive exhaustive pairing over a grouped map of available pairs:
/// `true` exactly when the remaining team set can be fully paired off.
pub fn day_is_valid_rec(
    games_remaining_map: &Vec<(usize, Vec<usize>)>,
    idx: usize,
    teams_remaining: Vec<usize>,
) -> (r: bool)
    ensures
        r == day_rec_s(map_v(games_remaining_map@), idx as int, teams_remaining@),
    decreases games_remaining_map@.len() - idx,
{
    let ghost mv = map_v(games_remaining_map@);
    if teams_remaining.len() == 0 {
        return true;
    }
    if idx >= games_remaining_map.len() {
        return false;
    }
    proof {
        assert(mv[idx as int] == (games_remaining_map@[idx as int].0, games_remaining_map@[idx as int].1@));
    }
    let ti0 = games_remaining_map[idx].0;
    if contains_team(&teams_remaining, ti0) {
        let mut pj: usize = 0;
        loop
            invariant
                pj <= games_remaining_map@[idx as int].1@.len(),
                idx < games_remaining_map@.len(),
                mv == map_v(games_remaining_map@),
                ti0 == mv[idx as int].0,
                teams_remaining@.len() > 0,
                teams_remaining@.contains(ti0),
                day_try_s(mv, idx as int, teams_remaining@, 0) == day_try_s(
                    mv,
                    idx as int,
                    teams_remaining@,
                    pj as int,
                ),
            ensures
                day_try_s(mv, idx as int, teams_remaining@, 0) == false,
            decreases games_remaining_map@[idx as int].1@.len() - pj,
        {
            if pj == games_remaining_map[idx].1.len() {
                break;
            }
            let ti1 = games_remaining_map[idx].1[pj];
            proof {
                assert(mv[idx as int].1[pj as int] == ti1);
            }
            if contains_team(&teams_remaining, ti1) {
                let step1 = remove_team(&teams_remaining, ti0);
                let new_teams_remaining = remove_team(&step1, ti1);
                proof {
                    assert(idx < games_remaining_map.len());
                }
                if day_is_valid_rec(games_remaining_map, idx + 1, new_teams_remaining) {
                    proof {
                        assert(day_try_s(mv, idx as int, teams_remaining@, pj as int));
                    }
                    return true;
                }
            }
            pj = pj + 1;
        }
        false
    } else {
        day_is_valid_rec(games_remaining_map, idx + 1, teams_remaining)
    }
}

/// Lexicographic order on games by `(ti0, ti1, distance)`.
pub open spec fn game_le(a: Game, b: Game) -> bool {
    ||| a.ti0 < b.ti0
    ||| (a.ti0 == b.ti0 && a.ti1 < b.ti1)
    ||| (a.ti0 == b.ti0 && a.ti1 == b.ti1 && a.distance <= b.distance)
}

pub open spec fn insert_by_key_s(s: Seq<Game>, g: Game) -> Seq<Game>
    decreases s.len(),
{
    if s.len() > 0 && !game_le(s.last(), g) {
        insert_by_key_s(s.drop_last(), g).push(s.last())
    } else {
        s.push(g)
    }
}

/// Insertion sort by the full `(ti0, ti1, distance)` key, so equal games
/// become adjacent and duplicates can be dropped.
pub open spec fn sort_by_key_s(s: Seq<Game>) -> Seq<Game>
    decreases s.len(),
{
    if s.len() == 0 {
        s
    } else {
        insert_by_key_s(sort_by_key_s(s.drop_last()), s.last())
    }
}

/// Drop each element equal to its predecessor.
pub open spec fn dedup_s(s: Seq<Game>) -> Seq<Game>
    decreases s.len(),
{
    if s.len() == 0 {
        s
    } else {
        let p = dedup_s(s.drop_last());
        if p.len() > 0 && p.last() == s.last() {
            p
        } else {
            p.push(s.last())
        }
    }
}

fn game_le_exec(a: Game, b: Game) -> (r: bool)
    ensures
        r == game_le(a, b),
{
    a.ti0 < b.ti0 || (a.ti0 == b.ti0 && a.ti1 < b.ti1) || (a.ti0 == b.ti0 && a.ti1 == b.ti1
        && a.distance <= b.distance)
}

/// Sort games by the full `(ti0, ti1, distance)` key.
pub fn sort_games_by_key(games: &Vec<Game>) -> (r: Vec<Game>)
    ensures
        r@ == sort_by_key_s(games@),
{
    let mut out: Vec<Game> = Vec::new();
    let mut i: usize = 0;
    while i < games.len()
        invariant
            i <= games@.len(),
            out@ == sort_by_key_s(games@.take(i as int)),
        decreases games@.len() - i,
    {
        let g = games[i];
        let mut j: usize = out.len();
        proof {
            assert(out@.take(j as int) =~= out@);
            assert(insert_by_key_s(out@, g) + out@.skip(j as int) =~= insert_by_key_s(out@, g));
        }
        while j > 0 && !game_le_exec(out[j - 1], g)
            invariant
                j <= out@.len(),
                insert_by_key_s(out@, g) == insert_by_key_s(out@.take(j as int), g)
                    + out@.skip(j as int),
            decreases j,
        {
            proof {
                let pre = out@.take(j as int);
                assert(pre.drop_last() =~= out@.take(j - 1));
                assert(pre.last() == out@[j - 1]);
                assert(insert_by_key_s(out@.take(j - 1), g).push(out@[j - 1]) + out@.skip(j as int)
                    =~= insert_by_key_s(out@.take(j - 1), g) + out@.skip(j - 1));
            }
            j = j - 1;
        }
        proof {
            let pre = out@.take(j as int);
            assert(insert_by_key_s(pre, g) == pre.push(g));
            assert(pre.push(g) + out@.skip(j as int) =~= out@.insert(j as int, g));
            assert(games@.take(i + 1).drop_last() =~= games@.take(i as int));
            assert(games@.take(i + 1).last() == games@[i as int]);
        }
        out.insert(j, g);
        i = i + 1;
    }
    proof {
        assert(games@.take(games@.len() as int) =~= games@);
    }
    out
}

/// Drop adjacent duplicate games.
pub fn dedup_games(games: &Vec<Game>) -> (r: Vec<Game>)
    ensures
        r@ == dedup_s(games@),
{
    let mut out: Vec<Game> = Vec::new();
    let mut i: usize = 0;
    while i < games.len()
        invariant
            i <= games@.len(),
            out@ == dedup_s(games@.take(i as int)),
        decreases games@.len() - i,
    {
        let g = games[i];
        proof {
            assert(games@.take(i + 1).drop_last() =~= games@.take(i as int));
            assert(games@.take(i + 1).last() == games@[i as int]);
        }
        if out.len() == 0 {
            out.push(g);
        } else {
            let lastg = out[out.len() - 1];
            proof {
                assert(out@.last() == lastg);
            }
            if !(lastg == g) {
                out.push(g);
            }
        }
        i = i + 1;
    }
    proof {
        assert(games@.take(games@.len() as int) =~= games@);
    }
    out
}

/// One calendar day: a date label, a weekend flag, the ascending list of
/// team indices still available to play, and the games assigned so far.
pub struct Day {
    pub date: String,
    pub is_weekend: bool,
    pub teams_remaining: Vec<usize>,
    pub games: Vec<Game>,
}

/// The grouped adjacency map of the games playable on a day: games whose
/// two teams are both available, grouped by their run of equal leading
/// teams, in list order.
pub open spec fn build_map_s(
    games: Seq<Game>,
    avail: Seq<usize>,
    key: usize,
    vals: Seq<usize>,
    acc: Seq<(usize, Seq<usize>)>,
) -> Seq<(usize, Seq<usize>)>
    decreases games.len(),
{
    if games.len() == 0 {
        if vals.len() > 0 {
            acc.push((key, vals))
        } else {
            acc
        }
    } else {
        let g = games[0];
        if avail.contains(g.ti0) && avail.contains(g.ti1) {
            if key == g.ti0 {
                build_map_s(games.drop_first(), avail, key, vals.push(g.ti1), acc)
            } else if vals.len() > 0 {
                build_map_s(games.drop_first(), avail, g.ti0, seq![g.ti1], acc.push((key, vals)))
            } else {
                build_map_s(games.drop_first(), avail, g.ti0, seq![g.ti1], acc)
            }
        } else {
            build_map_s(games.drop_first(), avail, key, vals, acc)
        }
    }
}

/// Whether an available-team list can be fully paired off from a game list.
pub open spec fn day_valid_s(avail: Seq<usize>, games: Seq<Game>) -> bool {
    day_rec_s(
        build_map_s(games, avail, 0, Seq::empty(), Seq::empty()),
        0,
        avail,
    )
}

impl Day {
    /// Can this day's whole available-team list still be paired off using
    /// the given sorted, deduplicated list of remaining games? Builds the
    /// grouped adjacency map and runs the exhaustive pairing check.
    pub fn is_valid(&self, sorted_deduped_remaining_games: &Vec<Game>) -> (r: bool)
        ensures
            r == day_valid_s(self.teams_remaining@, sorted_deduped_remaining_games@),
    {
        let games = sorted_deduped_remaining_games;
        let ghost avail = self.teams_remaining@;
        let mut remaining_games_map: Vec<(usize, Vec<usize>)> = Vec::new();
        let mut ti0: usize = 0;
        let mut ti1_vals: Vec<usize> = Vec::new();
        let mut i: usize = 0;
        proof {
            assert(games@.skip(0) =~= games@);
            assert(map_v(remaining_games_map@) =~= Seq::<(usize, Seq<usize>)>::empty());
            assert(ti1_vals@ =~= Seq::<usize>::empty());
        }
        while i < games.len()
            invariant
                i <= games@.len(),
                avail == self.teams_remaining@,
                build_map_s(games@, avail, 0, Seq::empty(), Seq::empty()) == build_map_s(
                    games@.skip(i as int),
                    avail,
                    ti0,
                    ti1_vals@,
                    map_v(remaining_games_map@),
                ),
            decreases games@.len() - i,
        {
            let g = games[i];
            proof {
                assert(games@.skip(i as int)[0] == g);
                assert(games@.skip(i as int).drop_first() =~= games@.skip(i + 1));
            }
            if contains_team(&self.teams_remaining, g.ti0) && contains_team(
                &self.teams_remaining,
                g.ti1,
            ) {
                if ti0 == g.ti0 {
                    ti1_vals.push(g.ti1);
                } else {
                    if ti1_vals.len() > 0 {
                        let ghost old_map = map_v(remaining_games_map@);
                        remaining_games_map.push((ti0, ti1_vals));
                        proof {
                            assert(map_v(remaining_games_map@) =~= old_map.push(
                                (ti0, remaining_games_map@.last().1@),
                            ));
                        }
                        ti1_vals = Vec::new();
                        ti1_vals.push(g.ti1);
                        proof {
                            assert(ti1_vals@ =~= seq![g.ti1]);
                        }
                    } else {
                        ti1_vals.push(g.ti1);
                        proof {
                            assert(ti1_vals@ =~= seq![g.ti1]);
                        }
                    }
                    ti0 = g.ti0;
                }
            }
            i = i + 1;
        }
        proof {
            assert(games@.skip(games@.len() as int) =~= Seq::<Game>::empty());
        }
        if ti1_vals.len() > 0 {
            let ghost old_map = map_v(remaining_games_map@);
            remaining_games_map.push((ti0, ti1_vals));
            proof {
                assert(map_v(remaining_games_map@) =~= old_map.push(
                    (ti0, remaining_games_map@.last().1@),
                ));
            }
        }
        let teams_copy = clone_team_list(&self.teams_remaining);
        day_is_valid_rec(&remaining_games_map, 0, teams_copy)
    }
}

/// A copy of an index list.
pub fn clone_team_list(v: &Vec<usize>) -> (r: Vec<usize>)
    ensures
        r@ == v@,
{
    let mut out: Vec<usize> = Vec::new();
    let mut i: usize = 0;
    while i < v.len()
        invariant
            i <= v@.len(),
            out@ == v@.take(i as int),
        decreases v@.len() - i,
    {
        out.push(v[i]);
        proof {
            assert(v@.take(i + 1) =~= v@.take(i as int).push(v@[i as int]));
        }
        i = i + 1;
    }
    proof {
        assert(v@.take(v@.len() as int) =~= v@);
    }
    out
}

/// A copy of a game list.
pub fn clone_game_list(v: &Vec<Game>) -> (r: Vec<Game>)
    ensures
        r@ == v@,
{
    let mut out: Vec<Game> = Vec::new();
    let mut i: usize = 0;
    while i < v.len()
        invariant
            i <= v@.len(),
            out@ == v@.take(i as int),
        decreases v@.len() - i,
    {
        out.push(v[i]);
        proof {
            assert(v@.take(i + 1) =~= v@.take(i as int).push(v@[i as int]));
        }
        i = i + 1;
    }
    proof {
        assert(v@.take(v@.len() as int) =~= v@);
    }
    out
}

/// Ghost value of a day.
#[verifier::ext_equal]
pub ghost struct DayV {
    pub date: Seq<char>,
    pub is_weekend: bool,
    pub teams_remaining: Seq<usize>,
    pub games: Seq<Game>,
}

impl View for Day {
    type V = DayV;

    open spec fn view(&self) -> DayV {
        DayV {
            date: self.date@,
            is_weekend: self.is_weekend,
            teams_remaining: self.teams_remaining@,
            games: self.games@,
        }
    }
}

/// One node of the day-assignment search: the calendar (finalized days keep
/// their games), the index of the day being filled, and the games not yet
/// placed.
pub struct ScheduleConfig {
    pub days: Vec<Day>,
    pub days_index: usize,
    pub remaining_games: Vec<Game>,
}

/// Ghost value of a search node.
#[verifier::ext_equal]
pub ghost struct CfgV {
    pub days: Seq<DayV>,
    pub days_index: int,
    pub remaining_games: Seq<Game>,
}

impl View for ScheduleConfig {
    type V = CfgV;

    open spec fn view(&self) -> CfgV {
        CfgV {
            days: self.days@.map_values(|d: Day| d@),
            days_index: self.days_index as int,
            remaining_games: self.remaining_games@,
        }
    }
}

/// Structural validity of a search node: the cursor within range, each
/// day's available list ascending and duplicate-free, and no game pairing a
/// team with itself.
pub open spec fn cfg_wf(c: CfgV) -> bool {
    &&& 0 <= c.days_index <= c.days.len()
    &&& (forall|d: int|
        0 <= d < c.days.len() ==> strictly_sorted(#[trigger] c.days[d].teams_remaining))
    &&& (forall|k: int|
        0 <= k < c.remaining_games.len() ==> #[trigger] c.remaining_games[k].ti0
            != c.remaining_games[k].ti1)
}

/// `x` plays in one of the games `d2` gained over `d`.
pub open spec fn gained_team(d: DayV, d2: DayV, x: usize) -> bool {
    exists|k: int|
        d.games.len() <= k < d2.games.len() && (#[trigger] d2.games[k].ti0 == x || d2.games[k].ti1
            == x)
}

/// How one day may evolve during the search: its label never changes, its
/// game list only grows, every gained game pairs two distinct teams that
/// were still available, no two gained games share a team, and the
/// available list loses exactly the gained games' teams (two per game).
pub open spec fn day_descends(d: DayV, d2: DayV) -> bool {
    &&& d2.date == d.date
    &&& d2.is_weekend == d.is_weekend
    &&& d.games.len() <= d2.games.len()
    &&& d2.games.take(d.games.len() as int) == d.games
    &&& (forall|k: int|
        d.games.len() <= k < d2.games.len() ==> d.teams_remaining.contains(
            #[trigger] d2.games[k].ti0,
        ) && d.teams_remaining.contains(d2.games[k].ti1) && d2.games[k].ti0 != d2.games[k].ti1)
    &&& (forall|k1: int, k2: int|
        d.games.len() <= k1 < k2 < d2.games.len() ==> #[trigger] d2.games[k1].ti0
            != #[trigger] d2.games[k2].ti0 && d2.games[k1].ti0 != d2.games[k2].ti1
            && d2.games[k1].ti1 != d2.games[k2].ti0 && d2.games[k1].ti1 != d2.games[k2].ti1)
    &&& (forall|x: usize|
        #[trigger] d2.teams_remaining.contains(x) <==> (d.teams_remaining.contains(x)
            && !gained_team(d, d2, x)))
    &&& d2.teams_remaining.len() == d.teams_remaining.len() - 2 * (d2.games.len()
        - d.games.len())
}

/// How one search node may evolve into another: same calendar length, the
/// cursor only advances, every day evolves as `day_descends` allows, and
/// every day the cursor has passed has been fully paired off.
pub open spec fn cfg_descends(a: CfgV, b: CfgV) -> bool {
    &&& b.days.len() == a.days.len()
    &&& 0 <= a.days_index <= b.days_index <= a.days.len()
    &&& (forall|d: int| 0 <= d < a.days.len() ==> day_descends(a.days[d], #[trigger] b.days[d]))
    &&& (forall|d: int|
        a.days_index <= d < b.days_index ==> #[trigger] b.days[d].teams_remaining.len() == 0)
}

pub proof fn lemma_day_descends_refl(d: DayV)
    ensures
        day_descends(d, d),
{
    assert(d.games.take(d.games.len() as int) =~= d.games);
    assert forall|x: usize| #[trigger] d.teams_remaining.contains(x) implies (
    d.teams_remaining.contains(x) && !gained_team(d, d, x)) by {}
}

pub proof fn lemma_day_descends_trans(d1: DayV, d2: DayV, d3: DayV)
    requires
        day_descends(d1, d2),
        day_descends(d2, d3),
    ensures
        day_descends(d1, d3),
{
    let l1 = d1.games.len() as int;
    let l2 = d2.games.len() as int;
    let l3 = d3.games.len() as int;
    assert(d3.games.take(l1) =~= d1.games) by {
        assert(d3.games.take(l2) == d2.games);
        assert forall|k: int| 0 <= k < l1 implies d3.games.take(l1)[k] == d1.games[k] by {
            assert(d3.games.take(l2)[k] == d2.games[k]);
            assert(d2.games.take(l1)[k] == d1.games[k]);
        }
    }
    assert forall|k: int| l1 <= k < l2 implies d3.games[k] == d2.games[k] by {
        assert(d3.games.take(l2)[k] == d2.games[k]);
    }
    assert forall|k: int| l1 <= k < l3 implies d1.teams_remaining.contains(
        #[trigger] d3.games[k].ti0,
    ) && d1.teams_remaining.contains(d3.games[k].ti1) && d3.games[k].ti0 != d3.games[k].ti1 by {
        if k < l2 {
            assert(d3.games[k] == d2.games[k]);
            assert(d1.teams_remaining.contains(d2.games[k].ti0));
        } else {
            assert(d2.teams_remaining.contains(d3.games[k].ti0));
            assert(d2.teams_remaining.contains(d3.games[k].ti1));
        }
    }
    assert forall|k1: int, k2: int| l1 <= k1 < k2 < l3 implies #[trigger] d3.games[k1].ti0
        != #[trigger] d3.games[k2].ti0 && d3.games[k1].ti0 != d3.games[k2].ti1 && d3.games[k1].ti1
        != d3.games[k2].ti0 && d3.games[k1].ti1 != d3.games[k2].ti1 by {
        if k2 < l2 {
            assert(d3.games[k1] == d2.games[k1]);
            assert(d3.games[k2] == d2.games[k2]);
        } else if k1 >= l2 {
        } else {
            assert(d3.games[k1] == d2.games[k1]);
            let g1 = d2.games[k1];
            let g2 = d3.games[k2];
            assert(d2.teams_remaining.contains(g2.ti0));
            assert(d2.teams_remaining.contains(g2.ti1));
            assert(gained_team(d1, d2, g1.ti0)) by {
                assert(d2.games[k1].ti0 == g1.ti0);
            }
            assert(gained_team(d1, d2, g1.ti1)) by {
                assert(d2.games[k1].ti1 == g1.ti1);
            }
            assert(!d2.teams_remaining.contains(g1.ti0));
            assert(!d2.teams_remaining.contains(g1.ti1));
        }
    }
    assert forall|x: usize| #[trigger] d3.teams_remaining.contains(x) <==> (
    d1.teams_remaining.contains(x) && !gained_team(d1, d3, x)) by {
        assert(d3.teams_remaining.contains(x) <==> (d2.teams_remaining.contains(x)
            && !gained_team(d2, d3, x)));
        assert(d2.teams_remaining.contains(x) <==> (d1.teams_remaining.contains(x)
            && !gained_team(d1, d2, x)));
        if gained_team(d1, d3, x) {
            let k = choose|k: int|
                l1 <= k < l3 && (#[trigger] d3.games[k].ti0 == x || d3.games[k].ti1 == x);
            if k < l2 {
                assert(d3.games[k] == d2.games[k]);
                assert(gained_team(d1, d2, x)) by {
                    assert(d2.games[k].ti0 == x || d2.games[k].ti1 == x);
                }
                assert(!d3.teams_remaining.contains(x)) by {
                    assert(!d2.teams_remaining.contains(x));
                }
            } else {
                assert(gained_team(d2, d3, x)) by {
                    assert(d3.games[k].ti0 == x || d3.games[k].ti1 == x);
                }
                assert(!d3.teams_remaining.contains(x));
            }
        }
        if d1.teams_remaining.contains(x) && !gained_team(d1, d3, x) {
            assert(!gained_team(d1, d2, x)) by {
                if gained_team(d1, d2, x) {
                    let k = choose|k: int|
                        l1 <= k < l2 && (#[trigger] d2.games[k].ti0 == x || d2.games[k].ti1 == x);
                    assert(d3.games[k] == d2.games[k]);
                    assert(gained_team(d1, d3, x)) by {
                        assert(d3.games[k].ti0 == x || d3.games[k].ti1 == x);
                    }
                }
            }
            assert(!gained_team(d2, d3, x)) by {
                if gained_team(d2, d3, x) {
                    let k = choose|k: int|
                        l2 <= k < l3 && (#[trigger] d3.games[k].ti0 == x || d3.games[k].ti1 == x);
                    assert(gained_team(d1, d3, x)) by {
                        assert(d3.games[k].ti0 == x || d3.games[k].ti1 == x);
                    }
                }
            }
        }
    }
}

pub proof fn lemma_cfg_descends_refl(c: CfgV)
    requires
        0 <= c.days_index <= c.days.len(),
    ensures
        cfg_descends(c, c),
{
    assert forall|d: int| 0 <= d < c.days.len() implies day_descends(
        c.days[d],
        #[trigger] c.days[d],
    ) by {
        lemma_day_descends_refl(c.days[d]);
    }
}

pub proof fn lemma_cfg_descends_trans(a: CfgV, b: CfgV, c: CfgV)
    requires
        cfg_descends(a, b),
        cfg_descends(b, c),
    ensures
        cfg_descends(a, c),
{
    assert forall|d: int| 0 <= d < a.days.len() implies day_descends(
        a.days[d],
        #[trigger] c.days[d],
    ) by {
        lemma_day_descends_trans(a.days[d], b.days[d], c.days[d]);
    }
    assert forall|d: int| a.days_index <= d < c.days_index implies #[trigger] c.days[d].teams_remaining.len() == 0 by {
        if d < b.days_index {
            assert(b.days[d].teams_remaining.len() == 0);
            assert(day_descends(b.days[d], c.days[d]));
            assert(c.days[d].teams_remaining.len() == b.days[d].teams_remaining.len() - 2 * (
            c.days[d].games.len() - b.days[d].games.len()));
        }
    }
}

/// A bound on the remaining search depth below a node: day advances and
/// game placements both shrink it.
pub open spec fn cfg_rank(c: CfgV) -> int {
    (c.days.len() - c.days_index) * (1 + c.remaining_games.len())
}

/// The node after placing the game at index `gi` on the current day: the
/// game moves from the remaining list to the day, and both its teams leave
/// the day's available list.
pub open spec fn place_v(c: CfgV, gi: int) -> CfgV {
    let g = c.remaining_games[gi];
    let d = c.days[c.days_index];
    let d2 = DayV {
        date: d.date,
        is_weekend: d.is_weekend,
        teams_remaining: remove_all_s(remove_all_s(d.teams_remaining, g.ti0), g.ti1),
        games: d.games.push(g),
    };
    CfgV {
        days: c.days.update(c.days_index, d2),
        days_index: c.days_index,
        remaining_games: c.remaining_games.remove(gi),
    }
}

/// The successors produced from game index `gi` on: one per remaining game
/// whose teams are both still available, in list order — except that as soon
/// as a placement would leave fewer unplaced games than half the teams still
/// needing one on this day, that placement and all later ones are abandoned.
pub open spec fn succ_from_v(c: CfgV, gi: int) -> Seq<CfgV>
    decreases c.remaining_games.len() - gi,
{
    if gi < 0 || gi >= c.remaining_games.len() {
        Seq::empty()
    } else {
        let g = c.remaining_games[gi];
        let avail = c.days[c.days_index].teams_remaining;
        if avail.contains(g.ti0) && avail.contains(g.ti1) {
            let c2 = place_v(c, gi);
            if c2.remaining_games.len() < c2.days[c.days_index].teams_remaining.len() / 2 {
                Seq::empty()
            } else {
                seq![c2] + succ_from_v(c, gi + 1)
            }
        } else {
            succ_from_v(c, gi + 1)
        }
    }
}

/// All successors of a node: the single day-advance node when the current
/// day has no available team left, otherwise one node per placeable game.
pub open spec fn successors_v(c: CfgV) -> Seq<CfgV> {
    if c.days[c.days_index].teams_remaining.len() == 0 {
        seq![
            CfgV {
                days: c.days,
                days_index: c.days_index + 1,
                remaining_games: c.remaining_games,
            },
        ]
    } else {
        succ_from_v(c, 0)
    }
}

/// Placement keeps a node well-formed, descends from it, and shrinks its
/// rank.
proof fn lemma_place_v_props(c: CfgV, gi: int)
    requires
        cfg_wf(c),
        0 <= c.days_index < c.days.len(),
        0 <= gi < c.remaining_games.len(),
        c.days[c.days_index].teams_remaining.contains(c.remaining_games[gi].ti0),
        c.days[c.days_index].teams_remaining.contains(c.remaining_games[gi].ti1),
    ensures
        cfg_wf(place_v(c, gi)),
        cfg_descends(c, place_v(c, gi)),
        cfg_rank(place_v(c, gi)) < cfg_rank(c),
{
    let g = c.remaining_games[gi];
    let d = c.days[c.days_index];
    let c2 = place_v(c, gi);
    let d2 = c2.days[c.days_index];
    lemma_remove_all_props(d.teams_remaining, g.ti0);
    lemma_remove_all_props(remove_all_s(d.teams_remaining, g.ti0), g.ti1);
    lemma_sorted_count(d.teams_remaining, g.ti0);
    lemma_sorted_count(remove_all_s(d.teams_remaining, g.ti0), g.ti1);
    assert(cfg_wf(c2)) by {
        assert(strictly_sorted(d2.teams_remaining));
        assert forall|dd: int| 0 <= dd < c2.days.len() implies strictly_sorted(
            #[trigger] c2.days[dd].teams_remaining,
        ) by {
            if dd != c.days_index {
                assert(c2.days[dd] == c.days[dd]);
            }
        }
        assert forall|k: int|
            0 <= k < c2.remaining_games.len() implies #[trigger] c2.remaining_games[k].ti0
            != c2.remaining_games[k].ti1 by {
            if k < gi {
                assert(c2.remaining_games[k] == c.remaining_games[k]);
            } else {
                assert(c2.remaining_games[k] == c.remaining_games[k + 1]);
            }
        }
    }
    assert(cfg_descends(c, c2)) by {
        assert forall|dd: int| 0 <= dd < c.days.len() implies day_descends(
            c.days[dd],
            #[trigger] c2.days[dd],
        ) by {
            if dd == c.days_index {
                assert(d2.games.take(d.games.len() as int) =~= d.games);
                assert(d2.games[d.games.len() as int] == g);
                assert forall|x: usize| #[trigger] d2.teams_remaining.contains(x) <==> (
                d.teams_remaining.contains(x) && !gained_team(d, d2, x)) by {
                    if d.teams_remaining.contains(x) && x != g.ti0 && x != g.ti1 {
                        assert(!gained_team(d, d2, x)) by {
                            if gained_team(d, d2, x) {
                                let k = choose|k: int|
                                    d.games.len() <= k < d2.games.len() && (#[trigger] d2.games[k].ti0 == x || d2.games[k].ti1 == x);
                                assert(k == d.games.len());
                            }
                        }
                    }
                    if gained_team(d, d2, x) {
                        let k = choose|k: int|
                            d.games.len() <= k < d2.games.len() && (#[trigger] d2.games[k].ti0 == x
                                || d2.games[k].ti1 == x);
                        assert(k == d.games.len());
                        assert(x == g.ti0 || x == g.ti1);
                    } else if d2.teams_remaining.contains(x) {
                        assert(d.teams_remaining.contains(x));
                    }
                }
                assert(d2.teams_remaining.len() == d.teams_remaining.len() - 2 * (d2.games.len()
                    - d.games.len())) by {
                    assert(remove_all_s(d.teams_remaining, g.ti0).contains(g.ti1));
                }
            } else {
                assert(c2.days[dd] == c.days[dd]);
                lemma_day_descends_refl(c.days[dd]);
            }
        }
    }
    assert(cfg_rank(c2) < cfg_rank(c)) by {
        assert(c2.remaining_games.len() == c.remaining_games.len() - 1);
        assert((c.days.len() - c.days_index) * (1 + c.remaining_games.len() - 1) < (c.days.len()
            - c.days_index) * (1 + c.remaining_games.len())) by (nonlinear_arith)
            requires
                c.days.len() - c.days_index >= 1,
                c.remaining_games.len() >= 1,
        ;
    }
}

/// Every successor of a well-formed node is well-formed, descends from it,
/// and has smaller rank.
pub proof fn lemma_successors_v_props(c: CfgV)
    requires
        cfg_wf(c),
        0 <= c.days_index < c.days.len(),
    ensures
        forall|i: int|
            0 <= i < successors_v(c).len() ==> cfg_wf(#[trigger] successors_v(c)[i])
                && cfg_descends(c, successors_v(c)[i]) && cfg_rank(successors_v(c)[i]) < cfg_rank(
                c,
            ),
{
    if c.days[c.days_index].teams_remaining.len() == 0 {
        let c2 = CfgV { days: c.days, days_index: c.days_index + 1, remaining_games: c.remaining_games };
        lemma_cfg_descends_refl(c);
        assert forall|dd: int| 0 <= dd < c.days.len() implies day_descends(
            c.days[dd],
            #[trigger] c2.days[dd],
        ) by {
            lemma_day_descends_refl(c.days[dd]);
        }
        assert(cfg_descends(c, c2));
        assert(cfg_rank(c2) < cfg_rank(c)) by {
            assert((c.days.len() - c.days_index - 1) * (1 + c.remaining_games.len()) < (
            c.days.len() - c.days_index) * (1 + c.remaining_games.len())) by (nonlinear_arith)
                requires
                    c.days.len() - c.days_index >= 1,
            ;
        }
        assert(successors_v(c)[0] == c2);
    } else {
        lemma_succ_from_props(c, 0);
    }
}

proof fn lemma_succ_from_props(c: CfgV, gi: int)
    requires
        cfg_wf(c),
        0 <= c.days_index < c.days.len(),
        0 <= gi,
    ensures
        forall|i: int|
            0 <= i < succ_from_v(c, gi).len() ==> cfg_wf(#[trigger] succ_from_v(c, gi)[i])
                && cfg_descends(c, succ_from_v(c, gi)[i]) && cfg_rank(succ_from_v(c, gi)[i])
                < cfg_rank(c),
    decreases c.remaining_games.len() - gi,
{
    if gi < c.remaining_games.len() {
        lemma_succ_from_props(c, gi + 1);
        let g = c.remaining_games[gi];
        let avail = c.days[c.days_index].teams_remaining;
        if avail.contains(g.ti0) && avail.contains(g.ti1) {
            let c2 = place_v(c, gi);
            lemma_place_v_props(c, gi);
            if c2.remaining_games.len() < c2.days[c.days_index].teams_remaining.len() / 2 {
                assert(succ_from_v(c, gi).len() == 0);
            } else {
                assert forall|i: int| 0 <= i < succ_from_v(c, gi).len() implies cfg_wf(
                    #[trigger] succ_from_v(c, gi)[i],
                ) && cfg_descends(c, succ_from_v(c, gi)[i]) && cfg_rank(succ_from_v(c, gi)[i])
                    < cfg_rank(c) by {
                    if i == 0 {
                        assert(succ_from_v(c, gi)[0] == c2);
                    } else {
                        assert(succ_from_v(c, gi)[i] == succ_from_v(c, gi + 1)[i - 1]);
                    }
                }
            }
        } else {
            assert(succ_from_v(c, gi) == succ_from_v(c, gi + 1));
        }
    } else {
        assert(succ_from_v(c, gi).len() == 0);
    }
}

/// A copy of a day with the same value.
pub fn clone_day(d: &Day) -> (r: Day)
    ensures
        r@ == d@,
{
    Day {
        date: d.date.clone(),
        is_weekend: d.is_weekend,
        teams_remaining: clone_team_list(&d.teams_remaining),
        games: clone_game_list(&d.games),
    }
}

/// A copy of a day list with the same values.
pub fn clone_days(v: &Vec<Day>) -> (r: Vec<Day>)
    ensures
        r@.map_values(|d: Day| d@) == v@.map_values(|d: Day| d@),
        r@.len() == v@.len(),
{
    let mut out: Vec<Day> = Vec::new();
    let mut i: usize = 0;
    while i < v.len()
        invariant
            i <= v@.len(),
            out@.len() == i,
            forall|k: int| 0 <= k < i ==> #[trigger] out@[k]@ == v@[k]@,
        decreases v@.len() - i,
    {
        let d = clone_day(&v[i]);
        out.push(d);
        i = i + 1;
    }
    proof {
        assert(out@.map_values(|d: Day| d@) =~= v@.map_values(|d: Day| d@));
    }
    out
}

/// A copy of a search node with the same value.
pub fn clone_config(c: &ScheduleConfig) -> (r: ScheduleConfig)
    ensures
        r@ == c@,
{
    let r = ScheduleConfig {
        days: clone_days(&c.days),
        days_index: c.days_index,
        remaining_games: clone_game_list(&c.remaining_games),
    };
    proof {
        assert(r@ =~~= c@);
    }
    r
}

/// All future days can still be paired off from the deduplicated remaining
/// games.
pub open spec fn cfg_valid_s(c: CfgV) -> bool {
    forall|d: int|
        c.days_index < d < c.days.len() ==> day_valid_s(
            #[trigger] c.days[d].teams_remaining,
            dedup_s(sort_by_key_s(c.remaining_games)),
        )
}

impl ScheduleConfig {
    /// A fresh search root: the given calendar, the cursor on the first
    /// day, and the given games still to place.
    pub fn new(days: Vec<Day>, remaining_games: Vec<Game>) -> (r: ScheduleConfig)
        ensures
            r@.days == days@.map_values(|d: Day| d@),
            r@.days_index == 0,
            r@.remaining_games == remaining_games@,
    {
        ScheduleConfig { days, days_index: 0, remaining_games }
    }

    /// The day-advance successor: same calendar and remaining games, cursor
    /// one day further.
    pub fn from_next_day(old_config: &ScheduleConfig) -> (r: ScheduleConfig)
        requires
            old_config.days_index < old_config.days@.len(),
        ensures
            r@ == (CfgV {
                days: old_config@.days,
                days_index: old_config@.days_index + 1,
                remaining_games: old_config@.remaining_games,
            }),
    {
        let n = old_config.days.len();
        proof {
            assert(old_config.days_index < n);
        }
        let r = ScheduleConfig {
            days: clone_days(&old_config.days),
            days_index: old_config.days_index + 1,
            remaining_games: clone_game_list(&old_config.remaining_games),
        };
        proof {
            assert(r@ =~~= CfgV {
                days: old_config@.days,
                days_index: old_config@.days_index + 1,
                remaining_games: old_config@.remaining_games,
            });
        }
        r
    }

    /// The goal test: the cursor has passed the last day.
    pub fn is_goal(&self) -> (r: bool)
        ensures
            r == (self@.days_index == self@.days.len()),
    {
        self.days_index == self.days.len()
    }

    /// The global feasibility prune: deduplicate and sort the remaining
    /// games, then check that every not-yet-started day can still be fully
    /// paired off from them.
    pub fn is_valid(&self) -> (r: bool)
        requires
            self.days_index < self.days@.len(),
        ensures
            r == cfg_valid_s(self@),
    {
        let sorted = sort_games_by_key(&self.remaining_games);
        let sorted_deduped = dedup_games(&sorted);
        let n = self.days.len();
        proof {
            assert(self.days_index < n);
        }
        let mut d: usize = self.days_index + 1;
        while d < self.days.len()
            invariant
                self.days_index < d <= self.days@.len(),
                sorted_deduped@ == dedup_s(sort_by_key_s(self@.remaining_games)),
                forall|dd: int|
                    self@.days_index < dd < d ==> day_valid_s(
                        #[trigger] self@.days[dd].teams_remaining,
                        dedup_s(sort_by_key_s(self@.remaining_games)),
                    ),
            decreases self.days@.len() - d,
        {
            let ok = self.days[d].is_valid(&sorted_deduped);
            proof {
                assert(self@.days[d as int].teams_remaining == self.days@[d as int].teams_remaining@);
            }
            if !ok {
                return false;
            }
            d = d + 1;
        }
        true
    }

    /// All successors of this node, in the order the search will try them:
    /// the single day-advance node when the current day is fully paired
    /// off; otherwise one node per placeable remaining game, in list order,
    /// abandoning the rest as soon as a placement leaves too few games to
    /// finish the day.
    pub fn successors(&self) -> (succ: Vec<ScheduleConfig>)
        requires
            cfg_wf(self@),
            self.days_index < self.days@.len(),
        ensures
            succ@.map_values(|s: ScheduleConfig| s@) == successors_v(self@),
    {
        let di = self.days_index;
        if self.days[di].teams_remaining.len() == 0 {
            let mut succ: Vec<ScheduleConfig> = Vec::new();
            succ.push(ScheduleConfig::from_next_day(self));
            proof {
                assert(succ@.map_values(|s: ScheduleConfig| s@) =~= successors_v(self@));
            }
            return succ;
        }
        let mut succ: Vec<ScheduleConfig> = Vec::new();
        let mut gi: usize = 0;
        proof {
            assert(succ@.map_values(|s: ScheduleConfig| s@) + succ_from_v(self@, 0) =~= succ_from_v(
                self@,
                0,
            ));
        }
        loop
            invariant
                gi <= self.remaining_games@.len(),
                di == self.days_index,
                di < self.days@.len(),
                cfg_wf(self@),
                self@.days[di as int].teams_remaining.len() != 0,
                succ_from_v(self@, 0) == succ@.map_values(|s: ScheduleConfig| s@) + succ_from_v(
                    self@,
                    gi as int,
                ),
            ensures
                succ@.map_values(|s: ScheduleConfig| s@) == succ_from_v(self@, 0),
            decreases self.remaining_games@.len() - gi,
        {
            if gi == self.remaining_games.len() {
                proof {
                    assert(succ@.map_values(|s: ScheduleConfig| s@) + succ_from_v(self@, gi as int)
                        =~= succ@.map_values(|s: ScheduleConfig| s@));
                }
                break;
            }
            let g = self.remaining_games[gi];
            let both = contains_team(&self.days[di].teams_remaining, g.ti0) && contains_team(
                &self.days[di].teams_remaining,
                g.ti1,
            );
            proof {
                assert(self@.days[di as int].teams_remaining == self.days@[di as int].teams_remaining@);
                assert(self@.remaining_games[gi as int] == g);
            }
            if both {
                let mut new_remaining_games = clone_game_list(&self.remaining_games);
                let next_game = new_remaining_games.remove(gi);
                let mut new_days = clone_days(&self.days);
                proof {
                    assert(new_days@[di as int]@ == self.days@[di as int]@);
                }
                let tr0 = remove_team(&new_days[di].teams_remaining, g.ti0);
                let tr = remove_team(&tr0, g.ti1);
                new_days[di].teams_remaining = tr;
                new_days[di].games.push(next_game);
                let ghost c2 = place_v(self@, gi as int);
                proof {
                    assert(next_game == g);
                    assert(new_days@.map_values(|d: Day| d@) =~~= c2.days);
                    assert(new_remaining_games@ == c2.remaining_games);
                }
                if new_remaining_games.len() < new_days[di].teams_remaining.len() / 2 {
                    proof {
                        assert(succ_from_v(self@, gi as int) =~= Seq::<CfgV>::empty());
                        assert(succ@.map_values(|s: ScheduleConfig| s@) + Seq::<CfgV>::empty()
                            =~= succ@.map_values(|s: ScheduleConfig| s@));
                    }
                    break;
                }
                let nc = ScheduleConfig {
                    days: new_days,
                    days_index: di,
                    remaining_games: new_remaining_games,
                };
                proof {
                    assert(nc@ =~~= c2);
                }
                let ghost pre = succ@.map_values(|s: ScheduleConfig| s@);
                succ.push(nc);
                proof {
                    assert(succ@.map_values(|s: ScheduleConfig| s@) =~= pre.push(c2));
                    assert(succ_from_v(self@, gi as int) == seq![c2] + succ_from_v(
                        self@,
                        gi + 1,
                    ));
                    assert(pre.push(c2) + succ_from_v(self@, gi + 1) =~= pre + (seq![c2]
                        + succ_from_v(self@, gi + 1)));
                }
            } else {
                proof {
                    assert(succ_from_v(self@, gi as int) == succ_from_v(self@, gi + 1));
                }
            }
            gi = gi + 1;
        }
        succ
    }

    /// Depth-first backtracking search from this node.
    ///
    /// The result is pinned two ways. It is `Some` exactly when the search's
    /// own goal-reachability predicate holds (`solvable`: some chain of the
    /// successor moves, none rejected by the feasibility test, carries the
    /// cursor past the last day) — so a search that always reported
    /// exhaustion would violate this contract wherever a schedule is
    /// reachable. And any solution returned is a well-formed node that this
    /// node can evolve into (`cfg_descends`: every placed game drew two
    /// distinct teams from its day's available list, no two games of one
    /// day share a team, and passed days are fully paired off) whose cursor
    /// has passed the last day.
    pub fn solve(&self) -> (r: Option<ScheduleConfig>)
        requires
            cfg_wf(self@),
        ensures
            r is Some ==> cfg_wf(r->Some_0@) && cfg_descends(self@, r->Some_0@)
                && r->Some_0@.days_index == r->Some_0@.days.len(),
            r is Some <==> solvable(self@),
        decreases cfg_rank(self@),
    {
        if self.is_goal() {
            let c = clone_config(self);
            proof {
                lemma_cfg_descends_refl(self@);
                assert(reaches_goal(self@, 0));
                assert(solvable(self@));
            }
            return Some(c);
        }
        if !self.is_valid() {
            proof {
                assert(!solvable(self@)) by {
                    if solvable(self@) {
                        let f = choose|f: nat| reaches_goal(self@, f);
                        assert(!reaches_goal(self@, f));
                    }
                }
            }
            return None;
        }
        let succs = self.successors();
        proof {
            lemma_successors_v_props(self@);
        }
        let mut i: usize = 0;
        while i < succs.len()
            invariant
                i <= succs@.len(),
                cfg_wf(self@),
                self@.days_index < self@.days.len(),
                cfg_valid_s(self@),
                succs@.map_values(|s: ScheduleConfig| s@) == successors_v(self@),
                forall|j: int| 0 <= j < i ==> !solvable(#[trigger] successors_v(self@)[j]),
            decreases succs@.len() - i,
        {
            let s = &succs[i];
            proof {
                assert(succs@.map_values(|s: ScheduleConfig| s@)[i as int] == s@);
                lemma_successors_v_props(self@);
                assert(cfg_wf(s@) && cfg_descends(self@, s@) && cfg_rank(s@) < cfg_rank(self@));
                assert(cfg_rank(s@) >= 0) by {
                    assert((s@.days.len() - s@.days_index) * (1 + s@.remaining_games.len())
                        >= 0) by (nonlinear_arith)
                        requires
                            s@.days.len() - s@.days_index >= 0,
                            s@.remaining_games.len() >= 0,
                    ;
                }
            }
            match s.solve() {
                Option::Some(solution) => {
                    proof {
                        lemma_cfg_descends_trans(self@, s@, solution@);
                        let f = choose|f: nat| reaches_goal(s@, f);
                        assert(reaches_goal(successors_v(self@)[i as int], f));
                        assert(reaches_goal(self@, f + 1));
                        assert(solvable(self@));
                    }
                    return Some(solution);
                },
                Option::None => {},
            }
            i = i + 1;
        }
        proof {
            assert(!solvable(self@)) by {
                if solvable(self@) {
                    let f = choose|f: nat| reaches_goal(self@, f);
                    assert(f > 0);
                    let j = choose|j: int|
                        0 <= j < successors_v(self@).len() && reaches_goal(
                            #[trigger] successors_v(self@)[j],
                            (f - 1) as nat,
                        );
                    assert(solvable(successors_v(self@)[j]));
                    assert(false);
                }
            }
        }
        None
    }
}

/// Law: a day with an odd number of available teams can never be finished.
/// Whenever a finished schedule (cursor past the last day) evolves from a
/// node by the day-evolution rules, every day the node's cursor had not yet
/// passed held an even number of available teams — each placement removes
/// exactly two, and a passed day must reach zero. So on a calendar with an
/// odd day the search can only report that no solution exists.
pub proof fn lemma_odd_day_unschedulable(a: CfgV, b: CfgV, d: int)
    requires
        cfg_descends(a, b),
        b.days_index == b.days.len(),
        a.days_index <= d < a.days.len(),
    ensures
        a.days[d].teams_remaining.len() % 2 == 0,
{
    assert(day_descends(a.days[d], b.days[d]));
    assert(b.days[d].teams_remaining.len() == 0);
    assert(b.days[d].teams_remaining.len() == a.days[d].teams_remaining.len() - 2 * (b.days[d].games.len() - a.days[d].games.len()));
}

/// Do all days hold an even number of available teams? An odd day is a
/// configuration error: it can never be fully paired off, so the search can
/// only report that no solution exists (`lemma_odd_day_unschedulable`).
pub fn days_all_even(days: &Vec<Day>) -> (r: bool)
    ensures
        r <==> forall|d: int|
            0 <= d < days@.len() ==> #[trigger] days@[d]@.teams_remaining.len() % 2 == 0,
{
    let mut d: usize = 0;
    while d < days.len()
        invariant
            d <= days@.len(),
            forall|k: int| 0 <= k < d ==> #[trigger] days@[k]@.teams_remaining.len() % 2 == 0,
        decreases days@.len() - d,
    {
        let len = days[d].teams_remaining.len();
        if len % 2 != 0 {
            proof {
                assert(days@[d as int]@.teams_remaining.len() == len as int);
                assert(!(days@[d as int]@.teams_remaining.len() % 2 == 0));
            }
            return false;
        }
        d = d + 1;
    }
    true
}

/// `x` plays in one of the pairs of `pr`.
pub open spec fn in_pairs(pr: Seq<(usize, usize)>, x: usize) -> bool {
    exists|k: int| 0 <= k < pr.len() && ((#[trigger] pr[k]).0 == x || pr[k].1 == x)
}

/// `pr` is a perfect pairing of `teams`: each pair joins two distinct
/// teams, no team stands in two pairs, and the paired teams are exactly the
/// members of `teams`.
pub open spec fn pairing_covers(teams: Seq<usize>, pr: Seq<(usize, usize)>) -> bool {
    &&& (forall|k: int| 0 <= k < pr.len() ==> (#[trigger] pr[k]).0 != pr[k].1)
    &&& (forall|k1: int, k2: int|
        0 <= k1 < k2 < pr.len() ==> (#[trigger] pr[k1]).0 != (#[trigger] pr[k2]).0 && pr[k1].0
            != pr[k2].1 && pr[k1].1 != pr[k2].0 && pr[k1].1 != pr[k2].1)
    &&& (forall|x: usize| #[trigger] teams.contains(x) <==> in_pairs(pr, x))
}

/// The ordered pair `(a, b)` is listed by some map entry at index `lo` or
/// later.
pub open spec fn pair_from_map(map: Seq<(usize, Seq<usize>)>, lo: int, a: usize, b: usize) -> bool {
    exists|i: int| lo <= i < map.len() && (#[trigger] map[i]).0 == a && map[i].1.contains(b)
}

pub open spec fn pairs_from_map(map: Seq<(usize, Seq<usize>)>, lo: int, pr: Seq<(usize, usize)>) -> bool {
    forall|k: int| 0 <= k < pr.len() ==> pair_from_map(map, lo, (#[trigger] pr[k]).0, pr[k].1)
}

/// No map entry lists its own key as a partner.
pub open spec fn map_keys_not_partners(map: Seq<(usize, Seq<usize>)>) -> bool {
    forall|i: int, k: int|
        0 <= i < map.len() && 0 <= k < map[i].1.len() ==> map[i].0 != (#[trigger] map[i].1[k])
}

proof fn lemma_day_rec_sound(map: Seq<(usize, Seq<usize>)>, idx: int, teams: Seq<usize>)
    requires
        day_rec_s(map, idx, teams),
        strictly_sorted(teams),
        map_keys_not_partners(map),
    ensures
        exists|pr: Seq<(usize, usize)>|
            #[trigger] pairing_covers(teams, pr) && pairs_from_map(map, idx, pr),
    decreases map.len() - idx, 1int, 0int,
{
    if teams.len() == 0 {
        let pr = Seq::<(usize, usize)>::empty();
        assert forall|x: usize| #[trigger] teams.contains(x) <==> in_pairs(pr, x) by {
            if in_pairs(pr, x) {
                let k = choose|k: int| 0 <= k < pr.len() && ((#[trigger] pr[k]).0 == x || pr[k].1 == x);
            }
        }
        assert(pairing_covers(teams, pr) && pairs_from_map(map, idx, pr));
    } else if idx < 0 || idx >= map.len() {
    } else if teams.contains(map[idx].0) {
        lemma_day_try_sound(map, idx, teams, 0);
    } else {
        lemma_day_rec_sound(map, idx + 1, teams);
        let pr = choose|pr: Seq<(usize, usize)>|
            #[trigger] pairing_covers(teams, pr) && pairs_from_map(map, idx + 1, pr);
        assert(pairs_from_map(map, idx, pr)) by {
            assert forall|k: int| 0 <= k < pr.len() implies pair_from_map(
                map,
                idx,
                (#[trigger] pr[k]).0,
                pr[k].1,
            ) by {
                let i = choose|i: int|
                    idx + 1 <= i < map.len() && (#[trigger] map[i]).0 == pr[k].0 && map[i].1.contains(
                        pr[k].1,
                    );
                assert(idx <= i < map.len() && map[i].0 == pr[k].0 && map[i].1.contains(pr[k].1));
            }
        }
        assert(pairing_covers(teams, pr) && pairs_from_map(map, idx, pr));
    }
}

proof fn lemma_day_try_sound(map: Seq<(usize, Seq<usize>)>, idx: int, teams: Seq<usize>, pj: int)
    requires
        day_try_s(map, idx, teams, pj),
        strictly_sorted(teams),
        map_keys_not_partners(map),
        0 <= idx < map.len(),
        teams.contains(map[idx].0),
    ensures
        exists|pr: Seq<(usize, usize)>|
            #[trigger] pairing_covers(teams, pr) && pairs_from_map(map, idx, pr),
    decreases map.len() - idx, 0int, map[idx].1.len() - pj,
{
    let t0 = map[idx].0;
    let t1 = map[idx].1[pj];
    if teams.contains(t1) && day_rec_s(map, idx + 1, remove_all_s(remove_all_s(teams, t0), t1)) {
        let mid = remove_all_s(teams, t0);
        let rest = remove_all_s(mid, t1);
        lemma_remove_all_props(teams, t0);
        lemma_remove_all_props(mid, t1);
        assert(t0 != t1);
        lemma_day_rec_sound(map, idx + 1, rest);
        let tail = choose|pr: Seq<(usize, usize)>|
            #[trigger] pairing_covers(rest, pr) && pairs_from_map(map, idx + 1, pr);
        let pr = seq![(t0, t1)] + tail;
        assert(pr[0] == (t0, t1));
        assert forall|k: int| 1 <= k < pr.len() implies pr[k] == tail[k - 1] by {}
        assert(pairs_from_map(map, idx, pr)) by {
            assert forall|k: int| 0 <= k < pr.len() implies pair_from_map(
                map,
                idx,
                (#[trigger] pr[k]).0,
                pr[k].1,
            ) by {
                if k == 0 {
                    assert(map[idx].1.contains(t1));
                    assert(idx <= idx < map.len() && map[idx].0 == t0 && map[idx].1.contains(t1));
                } else {
                    let i = choose|i: int|
                        idx + 1 <= i < map.len() && (#[trigger] map[i]).0 == tail[k - 1].0 && map[i].1.contains(tail[k - 1].1);
                    assert(idx <= i < map.len() && map[i].0 == pr[k].0 && map[i].1.contains(
                        pr[k].1,
                    ));
                }
            }
        }
        assert(pairing_covers(teams, pr)) by {
            assert forall|k: int| 0 <= k < pr.len() implies (#[trigger] pr[k]).0 != pr[k].1 by {
                if k > 0 {
                    assert(tail[k - 1].0 != tail[k - 1].1);
                }
            }
            assert forall|j: int| 0 <= j < tail.len() implies rest.contains(tail[j].0)
                && rest.contains(tail[j].1) by {
                assert(in_pairs(tail, tail[j].0)) by {
                    assert((#[trigger] tail[j]).0 == tail[j].0);
                }
                assert(in_pairs(tail, tail[j].1)) by {
                    assert((#[trigger] tail[j]).1 == tail[j].1);
                }
            }
            assert forall|k1: int, k2: int| 0 <= k1 < k2 < pr.len() implies (#[trigger] pr[k1]).0
                != (#[trigger] pr[k2]).0 && pr[k1].0 != pr[k2].1 && pr[k1].1 != pr[k2].0 && pr[k1].1 != pr[k2].1 by {
                if k1 == 0 {
                    assert(rest.contains(tail[k2 - 1].0) && rest.contains(tail[k2 - 1].1));
                    assert(!rest.contains(t0) && !rest.contains(t1));
                } else {
                    assert(tail[k1 - 1].0 != tail[k2 - 1].0 && tail[k1 - 1].0 != tail[k2 - 1].1
                        && tail[k1 - 1].1 != tail[k2 - 1].0 && tail[k1 - 1].1 != tail[k2 - 1].1);
                }
            }
            assert forall|x: usize| #[trigger] teams.contains(x) <==> in_pairs(pr, x) by {
                if teams.contains(x) {
                    if x == t0 || x == t1 {
                        assert((#[trigger] pr[0]).0 == x || pr[0].1 == x);
                        assert(in_pairs(pr, x));
                    } else {
                        assert(rest.contains(x));
                        assert(in_pairs(tail, x));
                        let k = choose|k: int|
                            0 <= k < tail.len() && ((#[trigger] tail[k]).0 == x || tail[k].1 == x);
                        assert((#[trigger] pr[k + 1]).0 == x || pr[k + 1].1 == x);
                        assert(in_pairs(pr, x));
                    }
                }
                if in_pairs(pr, x) {
                    let k = choose|k: int|
                        0 <= k < pr.len() && ((#[trigger] pr[k]).0 == x || pr[k].1 == x);
                    if k == 0 {
                        assert(teams.contains(x));
                    } else {
                        assert(in_pairs(tail, x)) by {
                            assert((#[trigger] tail[k - 1]).0 == x || tail[k - 1].1 == x);
                        }
                        assert(rest.contains(x));
                        assert(teams.contains(x));
                    }
                }
            }
        }
    } else {
        assert(day_try_s(map, idx, teams, pj + 1));
        lemma_day_try_sound(map, idx, teams, pj + 1);
    }
}

/// The ordered pair `(a, b)` is one of the listed games.
pub open spec fn pair_in_games(games: Seq<Game>, a: usize, b: usize) -> bool {
    exists|j: int| 0 <= j < games.len() && (#[trigger] games[j]).ti0 == a && games[j].ti1 == b
}

pub open spec fn pairs_in_games(games: Seq<Game>, pr: Seq<(usize, usize)>) -> bool {
    forall|k: int| 0 <= k < pr.len() ==> pair_in_games(games, (#[trigger] pr[k]).0, pr[k].1)
}

/// Every pair an entry lists is one of the given games.
pub open spec fn map_pairs_from(full: Seq<Game>, map: Seq<(usize, Seq<usize>)>) -> bool {
    forall|i: int, k: int|
        0 <= i < map.len() && 0 <= k < map[i].1.len() ==> pair_in_games(
            full,
            map[i].0,
            #[trigger] map[i].1[k],
        )
}

proof fn lemma_build_map_entries(
    games: Seq<Game>,
    avail: Seq<usize>,
    key: usize,
    vals: Seq<usize>,
    acc: Seq<(usize, Seq<usize>)>,
    full: Seq<Game>,
)
    requires
        forall|k: int| 0 <= k < vals.len() ==> pair_in_games(full, key, #[trigger] vals[k]),
        forall|k: int| 0 <= k < vals.len() ==> key != #[trigger] vals[k],
        forall|i: int, k: int|
            0 <= i < acc.len() && 0 <= k < acc[i].1.len() ==> pair_in_games(
                full,
                acc[i].0,
                #[trigger] acc[i].1[k],
            ),
        forall|i: int, k: int|
            0 <= i < acc.len() && 0 <= k < acc[i].1.len() ==> acc[i].0 != #[trigger] acc[i].1[k],
        forall|j: int|
            0 <= j < games.len() ==> pair_in_games(full, (#[trigger] games[j]).ti0, games[j].ti1),
        forall|j: int| 0 <= j < games.len() ==> (#[trigger] games[j]).ti0 != games[j].ti1,
    ensures
        map_keys_not_partners(build_map_s(games, avail, key, vals, acc)),
        map_pairs_from(full, build_map_s(games, avail, key, vals, acc)),
    decreases games.len(),
{
    if games.len() == 0 {
        let m = build_map_s(games, avail, key, vals, acc);
        if vals.len() > 0 {
            assert forall|i: int, k: int|
                0 <= i < m.len() && 0 <= k < m[i].1.len() implies pair_in_games(
                full,
                m[i].0,
                #[trigger] m[i].1[k],
            ) && m[i].0 != m[i].1[k] by {
                if i < acc.len() {
                    assert(m[i] == acc[i]);
                    assert(pair_in_games(full, acc[i].0, acc[i].1[k]));
                    assert(acc[i].0 != acc[i].1[k]);
                } else {
                    assert(m[i] == (key, vals));
                    assert(pair_in_games(full, key, vals[k]));
                    assert(key != vals[k]);
                }
            }
        }
    } else {
        let g = games[0];
        assert(pair_in_games(full, g.ti0, g.ti1) && g.ti0 != g.ti1) by {
            assert((#[trigger] games[0]).ti0 == g.ti0);
        }
        assert forall|j: int| 0 <= j < games.drop_first().len() implies pair_in_games(
            full,
            (#[trigger] games.drop_first()[j]).ti0,
            games.drop_first()[j].ti1,
        ) by {
            assert(games.drop_first()[j] == games[j + 1]);
            assert(pair_in_games(full, games[j + 1].ti0, games[j + 1].ti1));
        }
        assert forall|j: int| 0 <= j < games.drop_first().len() implies (
        #[trigger] games.drop_first()[j]).ti0 != games.drop_first()[j].ti1 by {
            assert(games.drop_first()[j] == games[j + 1]);
            assert(games[j + 1].ti0 != games[j + 1].ti1);
        }
        if avail.contains(g.ti0) && avail.contains(g.ti1) {
            if key == g.ti0 {
                assert forall|k: int| 0 <= k < vals.push(g.ti1).len() implies pair_in_games(
                    full,
                    key,
                    #[trigger] vals.push(g.ti1)[k],
                ) && key != vals.push(g.ti1)[k] by {
                    if k < vals.len() {
                        assert(vals.push(g.ti1)[k] == vals[k]);
                        assert(pair_in_games(full, key, vals[k]));
                        assert(key != vals[k]);
                    } else {
                        assert(vals.push(g.ti1)[k] == g.ti1);
                        assert(pair_in_games(full, g.ti0, g.ti1));
                    }
                }
                lemma_build_map_entries(
                    games.drop_first(),
                    avail,
                    key,
                    vals.push(g.ti1),
                    acc,
                    full,
                );
            } else if vals.len() > 0 {
                let acc2 = acc.push((key, vals));
                assert forall|i: int, k: int|
                    0 <= i < acc2.len() && 0 <= k < acc2[i].1.len() implies pair_in_games(
                    full,
                    acc2[i].0,
                    #[trigger] acc2[i].1[k],
                ) && acc2[i].0 != acc2[i].1[k] by {
                    if i < acc.len() {
                        assert(acc2[i] == acc[i]);
                        assert(pair_in_games(full, acc[i].0, acc[i].1[k]));
                        assert(acc[i].0 != acc[i].1[k]);
                    } else {
                        assert(acc2[i] == (key, vals));
                        assert(pair_in_games(full, key, vals[k]));
                        assert(key != vals[k]);
                    }
                }
                assert(seq![g.ti1][0] == g.ti1);
                lemma_build_map_entries(
                    games.drop_first(),
                    avail,
                    g.ti0,
                    seq![g.ti1],
                    acc2,
                    full,
                );
            } else {
                assert(seq![g.ti1][0] == g.ti1);
                lemma_build_map_entries(games.drop_first(), avail, g.ti0, seq![g.ti1], acc, full);
            }
        } else {
            lemma_build_map_entries(games.drop_first(), avail, key, vals, acc, full);
        }
    }
}

/// Law: the day-feasibility check is sound. Whenever it accepts an
/// available-team list against a game list of two-team games, a perfect
/// pairing exists: the whole list splits into pairs, each drawn from the
/// game list, no team in two pairs, every team covered. The converse is
/// `lemma_feasibility_check_complete`.
pub proof fn lemma_feasibility_check_sound(avail: Seq<usize>, games: Seq<Game>)
    requires
        day_valid_s(avail, games),
        strictly_sorted(avail),
        forall|j: int| 0 <= j < games.len() ==> (#[trigger] games[j]).ti0 != games[j].ti1,
    ensures
        exists|pr: Seq<(usize, usize)>|
            #[trigger] pairing_covers(avail, pr) && pairs_in_games(games, pr),
{
    let m = build_map_s(games, avail, 0, Seq::empty(), Seq::empty());
    assert(forall|j: int|
        0 <= j < games.len() ==> pair_in_games(games, (#[trigger] games[j]).ti0, games[j].ti1)
            && games[j].ti0 != games[j].ti1) by {
        assert forall|j: int| 0 <= j < games.len() implies pair_in_games(
            games,
            (#[trigger] games[j]).ti0,
            games[j].ti1,
        ) && games[j].ti0 != games[j].ti1 by {
            assert((#[trigger] games[j]).ti0 == games[j].ti0);
        }
    }
    lemma_build_map_entries(games, avail, 0, Seq::empty(), Seq::empty(), games);
    lemma_day_rec_sound(m, 0, avail);
    let pr = choose|pr: Seq<(usize, usize)>|
        #[trigger] pairing_covers(avail, pr) && pairs_from_map(m, 0, pr);
    assert(pairs_in_games(games, pr)) by {
        assert forall|k: int| 0 <= k < pr.len() implies pair_in_games(
            games,
            (#[trigger] pr[k]).0,
            pr[k].1,
        ) by {
            let i = choose|i: int|
                0 <= i < m.len() && (#[trigger] m[i]).0 == pr[k].0 && m[i].1.contains(pr[k].1);
            let v = choose|v: int| 0 <= v < m[i].1.len() && m[i].1[v] == pr[k].1;
            assert(pair_in_games(games, m[i].0, m[i].1[v]));
        }
    }
}

/// The search's reachability: within the given recursion budget, can a goal
/// node (cursor past the last day) be reached from `c` through the exact
/// moves the search makes — the global feasibility test first, then one
/// successor per placeable game (or the day advance)?
pub open spec fn reaches_goal(c: CfgV, fuel: nat) -> bool
    decreases fuel,
{
    if c.days_index == c.days.len() {
        true
    } else if fuel == 0 {
        false
    } else if !cfg_valid_s(c) {
        false
    } else {
        exists|i: int|
            0 <= i < successors_v(c).len() && reaches_goal(
                #[trigger] successors_v(c)[i],
                (fuel - 1) as nat,
            )
    }
}

/// Some recursion budget suffices to reach a goal node from `c`.
pub open spec fn solvable(c: CfgV) -> bool {
    exists|f: nat| reaches_goal(c, f)
}

/// Law: a calendar with nothing left to fill is always solved. When every
/// day from the cursor on has an empty available list, the search reaches
/// the goal (so `solve` must report success, never exhaustion, there).
pub proof fn lemma_empty_days_solvable(c: CfgV)
    requires
        0 <= c.days_index <= c.days.len(),
        forall|d: int|
            c.days_index <= d < c.days.len() ==> #[trigger] c.days[d].teams_remaining.len() == 0,
    ensures
        solvable(c),
        reaches_goal(c, (c.days.len() - c.days_index) as nat),
    decreases c.days.len() - c.days_index,
{
    let fuel = (c.days.len() - c.days_index) as nat;
    if c.days_index == c.days.len() {
    } else {
        assert(cfg_valid_s(c)) by {
            assert forall|d: int| c.days_index < d < c.days.len() implies day_valid_s(
                #[trigger] c.days[d].teams_remaining,
                dedup_s(sort_by_key_s(c.remaining_games)),
            ) by {
                assert(c.days[d].teams_remaining.len() == 0);
            }
        }
        let c2 = CfgV {
            days: c.days,
            days_index: c.days_index + 1,
            remaining_games: c.remaining_games,
        };
        lemma_empty_days_solvable(c2);
        assert(successors_v(c)[0] == c2);
        assert(reaches_goal(successors_v(c)[0], (fuel - 1) as nat));
    }
    assert(reaches_goal(c, fuel));
    assert(solvable(c));
}

pub open spec fn sorted_by_key(s: Seq<Game>) -> bool {
    forall|i: int, j: int| 0 <= i < j < s.len() ==> game_le(s[i], s[j])
}

proof fn lemma_insert_by_key_contains(s: Seq<Game>, g: Game, x: Game)
    ensures
        insert_by_key_s(s, g).contains(x) <==> (s.contains(x) || x == g),
    decreases s.len(),
{
    if s.len() > 0 && !game_le(s.last(), g) {
        lemma_insert_by_key_contains(s.drop_last(), g, x);
        let t = insert_by_key_s(s.drop_last(), g);
        if t.push(s.last()).contains(x) {
            let k = choose|k: int| 0 <= k < t.push(s.last()).len() && t.push(s.last())[k] == x;
            if k < t.len() {
                assert(t[k] == x);
                assert(t.contains(x));
                if s.drop_last().contains(x) {
                    let m = choose|m: int| 0 <= m < s.drop_last().len() && s.drop_last()[m] == x;
                    assert(s[m] == x);
                }
            } else {
                assert(x == s.last());
                assert(s[s.len() - 1] == x);
            }
        }
        if s.contains(x) || x == g {
            if x == g {
                assert(t.contains(x));
            } else {
                let k = choose|k: int| 0 <= k < s.len() && s[k] == x;
                if k < s.len() - 1 {
                    assert(s.drop_last()[k] == x);
                    assert(s.drop_last().contains(x));
                    assert(t.contains(x));
                } else {
                    assert(x == s.last());
                    assert(t.push(s.last()).last() == x);
                }
            }
            if t.contains(x) {
                let m = choose|m: int| 0 <= m < t.len() && t[m] == x;
                assert(t.push(s.last())[m] == x);
            }
        }
    } else {
        if s.push(g).contains(x) {
            let k = choose|k: int| 0 <= k < s.push(g).len() && s.push(g)[k] == x;
            if k < s.len() {
                assert(s[k] == x);
            }
        }
        if s.contains(x) {
            let k = choose|k: int| 0 <= k < s.len() && s[k] == x;
            assert(s.push(g)[k] == x);
        }
        if x == g {
            assert(s.push(g).last() == x);
        }
    }
}

proof fn lemma_insert_by_key_sorted(s: Seq<Game>, g: Game)
    requires
        sorted_by_key(s),
    ensures
        sorted_by_key(insert_by_key_s(s, g)),
        insert_by_key_s(s, g).len() == s.len() + 1,
    decreases s.len(),
{
    if s.len() > 0 && !game_le(s.last(), g) {
        assert(sorted_by_key(s.drop_last())) by {
            assert forall|i: int, j: int|
                0 <= i < j < s.drop_last().len() implies game_le(
                s.drop_last()[i],
                s.drop_last()[j],
            ) by {
                assert(game_le(s[i], s[j]));
            }
        }
        lemma_insert_by_key_sorted(s.drop_last(), g);
        let t = insert_by_key_s(s.drop_last(), g);
        assert forall|i: int, j: int|
            0 <= i < j < t.push(s.last()).len() implies game_le(
            t.push(s.last())[i],
            t.push(s.last())[j],
        ) by {
            if j < t.len() {
            } else {
                let x = t[i];
                lemma_insert_by_key_contains(s.drop_last(), g, x);
                assert(t.contains(x)) by {
                    assert(t[i] == x);
                }
                if s.drop_last().contains(x) {
                    let k = choose|k: int| 0 <= k < s.drop_last().len() && s.drop_last()[k] == x;
                    assert(game_le(s[k], s.last()));
                } else {
                    assert(x == g);
                    assert(game_le(g, s.last()));
                }
            }
        }
    } else {
        assert forall|i: int, j: int|
            0 <= i < j < s.push(g).len() implies game_le(s.push(g)[i], s.push(g)[j]) by {
            if j < s.len() {
            } else if i < s.len() {
                if s.len() > 0 {
                    assert(game_le(s[i], s.last()));
                    assert(game_le(s.last(), g));
                }
            }
        }
    }
}

/// The key sort keeps exactly the input's games, now in key order.
pub proof fn lemma_sort_by_key_sorted(s: Seq<Game>)
    ensures
        sorted_by_key(sort_by_key_s(s)),
        sort_by_key_s(s).len() == s.len(),
    decreases s.len(),
{
    if s.len() > 0 {
        lemma_sort_by_key_sorted(s.drop_last());
        lemma_insert_by_key_sorted(sort_by_key_s(s.drop_last()), s.last());
    }
}

pub proof fn lemma_sort_by_key_contains(s: Seq<Game>, x: Game)
    ensures
        sort_by_key_s(s).contains(x) <==> s.contains(x),
    decreases s.len(),
{
    if s.len() > 0 {
        lemma_sort_by_key_contains(s.drop_last(), x);
        lemma_insert_by_key_contains(sort_by_key_s(s.drop_last()), s.last(), x);
        if sort_by_key_s(s).contains(x) {
            if sort_by_key_s(s.drop_last()).contains(x) {
                assert(s.drop_last().contains(x));
                let k = choose|k: int| 0 <= k < s.drop_last().len() && s.drop_last()[k] == x;
                assert(s[k] == x);
            } else {
                assert(x == s.last());
                assert(s[s.len() - 1] == x);
            }
        }
        if s.contains(x) {
            let k = choose|k: int| 0 <= k < s.len() && s[k] == x;
            if k < s.len() - 1 {
                assert(s.drop_last()[k] == x);
                assert(s.drop_last().contains(x));
            } else {
                assert(x == s.last());
            }
        }
    }
}

/// Deduplication keeps exactly the input's games.
pub proof fn lemma_dedup_contains(s: Seq<Game>, x: Game)
    ensures
        dedup_s(s).contains(x) <==> s.contains(x),
    decreases s.len(),
{
    if s.len() > 0 {
        lemma_dedup_contains(s.drop_last(), x);
        let p = dedup_s(s.drop_last());
        if dedup_s(s).contains(x) {
            if p.len() > 0 && p.last() == s.last() {
                assert(p.contains(x));
                assert(s.drop_last().contains(x));
                let k = choose|k: int| 0 <= k < s.drop_last().len() && s.drop_last()[k] == x;
                assert(s[k] == x);
            } else {
                let k = choose|k: int| 0 <= k < p.push(s.last()).len() && p.push(s.last())[k] == x;
                if k < p.len() {
                    assert(p[k] == x);
                    assert(p.contains(x));
                    assert(s.drop_last().contains(x));
                    let m = choose|m: int| 0 <= m < s.drop_last().len() && s.drop_last()[m] == x;
                    assert(s[m] == x);
                } else {
                    assert(x == s.last());
                    assert(s[s.len() - 1] == x);
                }
            }
        }
        if s.contains(x) {
            let k = choose|k: int| 0 <= k < s.len() && s[k] == x;
            if k < s.len() - 1 {
                assert(s.drop_last()[k] == x);
                assert(s.drop_last().contains(x));
                assert(p.contains(x));
                let m = choose|m: int| 0 <= m < p.len() && p[m] == x;
                if p.len() > 0 && p.last() == s.last() {
                } else {
                    assert(p.push(s.last())[m] == x);
                }
            } else {
                assert(x == s.last());
                if p.len() > 0 && p.last() == s.last() {
                    assert(p.contains(x)) by {
                        assert(p[p.len() - 1] == x);
                    }
                } else {
                    assert(dedup_s(s).last() == x);
                }
            }
        }
    }
}

/// Deduplication keeps the key order.
pub proof fn lemma_dedup_sorted(s: Seq<Game>)
    requires
        sorted_by_key(s),
    ensures
        sorted_by_key(dedup_s(s)),
    decreases s.len(),
{
    if s.len() > 0 {
        assert(sorted_by_key(s.drop_last())) by {
            assert forall|i: int, j: int|
                0 <= i < j < s.drop_last().len() implies game_le(
                s.drop_last()[i],
                s.drop_last()[j],
            ) by {
                assert(game_le(s[i], s[j]));
            }
        }
        lemma_dedup_sorted(s.drop_last());
        let p = dedup_s(s.drop_last());
        if p.len() > 0 && p.last() == s.last() {
        } else {
            assert forall|i: int, j: int|
                0 <= i < j < p.push(s.last()).len() implies game_le(
                p.push(s.last())[i],
                p.push(s.last())[j],
            ) by {
                if j < p.len() {
                } else {
                    let x = p[i];
                    lemma_dedup_contains(s.drop_last(), x);
                    assert(p.contains(x)) by {
                        assert(p[i] == x);
                    }
                    assert(s.drop_last().contains(x));
                    let k = choose|k: int| 0 <= k < s.drop_last().len() && s.drop_last()[k] == x;
                    assert(game_le(s[k], s.last()));
                }
            }
        }
    }
}

/// Map keys rise strictly and every partner lies above its key.
pub open spec fn map_wf(map: Seq<(usize, Seq<usize>)>) -> bool {
    &&& (forall|i1: int, i2: int|
        0 <= i1 < i2 < map.len() ==> (#[trigger] map[i1]).0 < (#[trigger] map[i2]).0)
    &&& (forall|i: int, k: int|
        0 <= i < map.len() && 0 <= k < map[i].1.len() ==> map[i].0 < (#[trigger] map[i].1[k]))
}

/// Building the map from a key-ordered game list of ascending pairs yields a
/// well-formed map that lists every game whose teams are both available.
proof fn lemma_build_map_complete(
    games: Seq<Game>,
    avail: Seq<usize>,
    key: usize,
    vals: Seq<usize>,
    acc: Seq<(usize, Seq<usize>)>,
)
    requires
        forall|i: int, j: int|
            0 <= i < j < games.len() ==> (#[trigger] games[i]).ti0 <= (#[trigger] games[j]).ti0,
        forall|j: int| 0 <= j < games.len() ==> (#[trigger] games[j]).ti0 < games[j].ti1,
        map_wf(acc),
        vals.len() == 0 ==> acc.len() == 0,
        vals.len() > 0 ==> (forall|k: int| 0 <= k < vals.len() ==> key < #[trigger] vals[k]),
        vals.len() > 0 && acc.len() > 0 ==> acc.last().0 < key,
        vals.len() > 0 ==> (forall|j: int| 0 <= j < games.len() ==> key <= (#[trigger] games[j]).ti0),
    ensures
        map_wf(build_map_s(games, avail, key, vals, acc)),
        forall|j: int|
            0 <= j < games.len() && avail.contains((#[trigger] games[j]).ti0) && avail.contains(
                games[j].ti1,
            ) ==> pair_from_map(
                build_map_s(games, avail, key, vals, acc),
                0,
                games[j].ti0,
                games[j].ti1,
            ),
        forall|k: int|
            vals.len() > 0 && 0 <= k < vals.len() ==> pair_from_map(
                build_map_s(games, avail, key, vals, acc),
                0,
                key,
                #[trigger] vals[k],
            ),
        forall|i: int, k: int|
            0 <= i < acc.len() && 0 <= k < acc[i].1.len() ==> pair_from_map(
                build_map_s(games, avail, key, vals, acc),
                0,
                acc[i].0,
                #[trigger] acc[i].1[k],
            ),
    decreases games.len(),
{
    let m = build_map_s(games, avail, key, vals, acc);
    if games.len() == 0 {
        if vals.len() > 0 {
            assert(m == acc.push((key, vals)));
            assert(map_wf(m)) by {
                assert forall|i1: int, i2: int|
                    0 <= i1 < i2 < m.len() implies (#[trigger] m[i1]).0 < (#[trigger] m[i2]).0 by {
                    if i2 < acc.len() {
                        assert(m[i1] == acc[i1] && m[i2] == acc[i2]);
                    } else {
                        assert(m[i2] == (key, vals));
                        if acc.len() > 0 {
                            assert(m[i1] == acc[i1]);
                            assert(acc[i1].0 <= acc.last().0) by {
                                if i1 < acc.len() - 1 {
                                    assert(acc[i1].0 < acc[acc.len() - 1].0);
                                }
                            }
                        }
                    }
                }
                assert forall|i: int, k: int|
                    0 <= i < m.len() && 0 <= k < m[i].1.len() implies m[i].0 < (
                #[trigger] m[i].1[k]) by {
                    if i < acc.len() {
                        assert(m[i] == acc[i]);
                        assert(acc[i].0 < acc[i].1[k]);
                    } else {
                        assert(m[i] == (key, vals));
                        assert(key < vals[k]);
                    }
                }
            }
            assert forall|k: int| vals.len() > 0 && 0 <= k < vals.len() implies pair_from_map(
                m,
                0,
                key,
                #[trigger] vals[k],
            ) by {
                assert(m[acc.len() as int] == (key, vals));
                assert(m[acc.len() as int].1.contains(vals[k])) by {
                    assert(m[acc.len() as int].1[k] == vals[k]);
                }
            }
            assert forall|i: int, k: int|
                0 <= i < acc.len() && 0 <= k < acc[i].1.len() implies pair_from_map(
                m,
                0,
                acc[i].0,
                #[trigger] acc[i].1[k],
            ) by {
                assert(m[i] == acc[i]);
                assert(m[i].1.contains(acc[i].1[k])) by {
                    assert(m[i].1[k] == acc[i].1[k]);
                }
            }
        } else {
            assert(m == acc);
            assert(acc.len() == 0);
        }
    } else {
        let g = games[0];
        let rest = games.drop_first();
        assert(forall|i: int, j: int|
            0 <= i < j < rest.len() ==> (#[trigger] rest[i]).ti0 <= (#[trigger] rest[j]).ti0) by {
            assert forall|i: int, j: int|
                0 <= i < j < rest.len() implies (#[trigger] rest[i]).ti0 <= (
            #[trigger] rest[j]).ti0 by {
                assert(rest[i] == games[i + 1] && rest[j] == games[j + 1]);
                assert(games[i + 1].ti0 <= games[j + 1].ti0);
            }
        }
        assert(forall|j: int| 0 <= j < rest.len() ==> (#[trigger] rest[j]).ti0 < rest[j].ti1) by {
            assert forall|j: int| 0 <= j < rest.len() implies (#[trigger] rest[j]).ti0 < rest[
            j].ti1 by {
                assert(rest[j] == games[j + 1]);
            }
        }
        assert(forall|j: int| 0 <= j < rest.len() ==> g.ti0 <= (#[trigger] rest[j]).ti0) by {
            assert forall|j: int| 0 <= j < rest.len() implies g.ti0 <= (#[trigger] rest[j]).ti0 by {
                assert(rest[j] == games[j + 1]);
                assert(games[0].ti0 <= games[j + 1].ti0);
            }
        }
        if avail.contains(g.ti0) && avail.contains(g.ti1) {
            if key == g.ti0 {
                let vals2 = vals.push(g.ti1);
                assert(forall|k: int| 0 <= k < vals2.len() ==> key < #[trigger] vals2[k]) by {
                    assert forall|k: int| 0 <= k < vals2.len() implies key < #[trigger] vals2[
                    k] by {
                        if k < vals.len() {
                            assert(vals2[k] == vals[k]);
                        } else {
                            assert(vals2[k] == g.ti1);
                        }
                    }
                }
                lemma_build_map_complete(rest, avail, key, vals2, acc);
                assert(pair_from_map(m, 0, g.ti0, g.ti1)) by {
                    assert(pair_from_map(m, 0, key, vals2[vals.len() as int]));
                }
                assert forall|k: int| vals.len() > 0 && 0 <= k < vals.len() implies pair_from_map(
                    m,
                    0,
                    key,
                    #[trigger] vals[k],
                ) by {
                    assert(vals2[k] == vals[k]);
                    assert(pair_from_map(m, 0, key, vals2[k]));
                }
                assert forall|j: int|
                    0 <= j < games.len() && avail.contains((#[trigger] games[j]).ti0)
                    && avail.contains(games[j].ti1) implies pair_from_map(
                    m,
                    0,
                    games[j].ti0,
                    games[j].ti1,
                ) by {
                    if j > 0 {
                        assert(rest[j - 1] == games[j]);
                        assert(avail.contains(rest[j - 1].ti0) && avail.contains(rest[j - 1].ti1));
                    }
                }
            } else {
                let acc2 = if vals.len() > 0 {
                    acc.push((key, vals))
                } else {
                    acc
                };
                assert(map_wf(acc2)) by {
                    if vals.len() > 0 {
                        assert forall|i1: int, i2: int|
                            0 <= i1 < i2 < acc2.len() implies (#[trigger] acc2[i1]).0 < (
                        #[trigger] acc2[i2]).0 by {
                            if i2 < acc.len() {
                                assert(acc2[i1] == acc[i1] && acc2[i2] == acc[i2]);
                            } else {
                                assert(acc2[i2] == (key, vals));
                                assert(acc2[i1] == acc[i1]);
                                assert(acc[i1].0 <= acc.last().0) by {
                                    if i1 < acc.len() - 1 {
                                        assert(acc[i1].0 < acc[acc.len() - 1].0);
                                    }
                                }
                            }
                        }
                        assert forall|i: int, k: int|
                            0 <= i < acc2.len() && 0 <= k < acc2[i].1.len() implies acc2[i].0 < (
                        #[trigger] acc2[i].1[k]) by {
                            if i < acc.len() {
                                assert(acc2[i] == acc[i]);
                                assert(acc[i].0 < acc[i].1[k]);
                            } else {
                                assert(acc2[i] == (key, vals));
                                assert(key < vals[k]);
                            }
                        }
                    }
                }
                assert(vals.len() > 0 ==> key <= g.ti0);
                assert(acc2.len() > 0 ==> acc2.last().0 < g.ti0) by {
                    if acc2.len() > 0 {
                        if vals.len() > 0 {
                            assert(acc2.last() == (key, vals));
                        }
                    }
                }
                assert(seq![g.ti1][0] == g.ti1);
                lemma_build_map_complete(rest, avail, g.ti0, seq![g.ti1], acc2);
                assert(pair_from_map(m, 0, g.ti0, g.ti1)) by {
                    assert(pair_from_map(m, 0, g.ti0, seq![g.ti1][0]));
                }
                assert forall|k: int| vals.len() > 0 && 0 <= k < vals.len() implies pair_from_map(
                    m,
                    0,
                    key,
                    #[trigger] vals[k],
                ) by {
                    assert(acc2[acc.len() as int] == (key, vals));
                    assert(pair_from_map(m, 0, acc2[acc.len() as int].0, acc2[acc.len() as int].1[k]));
                }
                assert forall|i: int, k: int|
                    0 <= i < acc.len() && 0 <= k < acc[i].1.len() implies pair_from_map(
                    m,
                    0,
                    acc[i].0,
                    #[trigger] acc[i].1[k],
                ) by {
                    assert(acc2[i] == acc[i]);
                    assert(pair_from_map(m, 0, acc2[i].0, acc2[i].1[k]));
                }
                assert forall|j: int|
                    0 <= j < games.len() && avail.contains((#[trigger] games[j]).ti0)
                    && avail.contains(games[j].ti1) implies pair_from_map(
                    m,
                    0,
                    games[j].ti0,
                    games[j].ti1,
                ) by {
                    if j > 0 {
                        assert(rest[j - 1] == games[j]);
                        assert(avail.contains(rest[j - 1].ti0) && avail.contains(rest[j - 1].ti1));
                    }
                }
            }
        } else {
            lemma_build_map_complete(rest, avail, key, vals, acc);
            assert forall|j: int|
                0 <= j < games.len() && avail.contains((#[trigger] games[j]).ti0)
                && avail.contains(games[j].ti1) implies pair_from_map(
                m,
                0,
                games[j].ti0,
                games[j].ti1,
            ) by {
                assert(j != 0);
                assert(rest[j - 1] == games[j]);
                assert(avail.contains(rest[j - 1].ti0) && avail.contains(rest[j - 1].ti1));
            }
        }
    }
}

/// When some partner at position `q` or later pairs off the entry's key and
/// lets the rest succeed, the partner scan succeeds from position `pj`.
proof fn lemma_day_try_at(
    map: Seq<(usize, Seq<usize>)>,
    idx: int,
    teams: Seq<usize>,
    pj: int,
    q: int,
)
    requires
        0 <= idx < map.len(),
        0 <= pj <= q < map[idx].1.len(),
        teams.contains(map[idx].1[q]),
        day_rec_s(map, idx + 1, remove_all_s(remove_all_s(teams, map[idx].0), map[idx].1[q])),
    ensures
        day_try_s(map, idx, teams, pj),
    decreases q - pj,
{
    if pj == q {
    } else {
        lemma_day_try_at(map, idx, teams, pj + 1, q);
    }
}

/// The exhaustive pairing check is complete: whenever the available list
/// has a perfect pairing drawn from the map's entries at `idx` or later, the
/// check accepts. Needs a well-formed map (keys strictly rising, partners
/// above keys), as the grouped map of a key-sorted game list is.
proof fn lemma_day_rec_complete(map: Seq<(usize, Seq<usize>)>, idx: int, teams: Seq<usize>)
    requires
        0 <= idx,
        strictly_sorted(teams),
        map_wf(map),
        exists|pr: Seq<(usize, usize)>|
            #[trigger] pairing_covers(teams, pr) && pairs_from_map(map, idx, pr),
    ensures
        day_rec_s(map, idx, teams),
    decreases map.len() - idx,
{
    if teams.len() == 0 {
    } else {
        let pr = choose|pr: Seq<(usize, usize)>|
            #[trigger] pairing_covers(teams, pr) && pairs_from_map(map, idx, pr);
        let x0 = teams[0];
        assert(teams.contains(x0));
        assert(in_pairs(pr, x0));
        let j0 = choose|m: int| 0 <= m < pr.len() && ((#[trigger] pr[m]).0 == x0 || pr[m].1 == x0);
        assert(pair_from_map(map, idx, pr[j0].0, pr[j0].1)) by {
            assert((#[trigger] pr[j0]).0 == pr[j0].0);
        }
        let i0 = choose|i: int|
            idx <= i < map.len() && (#[trigger] map[i]).0 == pr[j0].0 && map[i].1.contains(
                pr[j0].1,
            );
        assert(idx < map.len());
        let k = map[idx].0;
        if teams.contains(k) {
            assert(in_pairs(pr, k));
            let j = choose|m: int| 0 <= m < pr.len() && ((#[trigger] pr[m]).0 == k || pr[m].1 == k);
            assert(pair_from_map(map, idx, pr[j].0, pr[j].1)) by {
                assert((#[trigger] pr[j]).0 == pr[j].0);
            }
            let i = choose|i: int|
                idx <= i < map.len() && (#[trigger] map[i]).0 == pr[j].0 && map[i].1.contains(
                    pr[j].1,
                );
            if pr[j].0 != k {
                assert(pr[j].1 == k);
                assert(map[i].1.contains(k));
                let qx = choose|q: int| 0 <= q < map[i].1.len() && map[i].1[q] == k;
                assert(map[i].0 < map[i].1[qx]);
                if i > idx {
                    assert(map[idx].0 < map[i].0);
                }
                assert(false);
            }
            let v = pr[j].1;
            if i != idx {
                assert(map[idx].0 < map[i].0);
                assert(false);
            }
            assert(map[idx].1.contains(v));
            let q = choose|q: int| 0 <= q < map[idx].1.len() && map[idx].1[q] == v;
            assert(map[idx].0 < map[idx].1[q]);
            assert(v != k);
            assert(teams.contains(v)) by {
                assert(in_pairs(pr, v)) by {
                    assert((#[trigger] pr[j]).1 == v);
                }
            }
            let mid = remove_all_s(teams, k);
            let rest_teams = remove_all_s(mid, v);
            lemma_remove_all_props(teams, k);
            lemma_remove_all_props(mid, v);
            let pr2 = pr.remove(j);
            assert(forall|m: int| 0 <= m < j ==> #[trigger] pr2[m] == pr[m]);
            assert(forall|m: int| j <= m < pr2.len() ==> #[trigger] pr2[m] == pr[m + 1]);
            assert(pairing_covers(rest_teams, pr2)) by {
                assert forall|m: int| 0 <= m < pr2.len() implies (#[trigger] pr2[m]).0 != pr2[
                m].1 by {
                    if m < j {
                        assert(pr2[m] == pr[m]);
                        assert((#[trigger] pr[m]).0 != pr[m].1);
                    } else {
                        assert(pr2[m] == pr[m + 1]);
                        assert((#[trigger] pr[m + 1]).0 != pr[m + 1].1);
                    }
                }
                assert forall|m1: int, m2: int|
                    0 <= m1 < m2 < pr2.len() implies (#[trigger] pr2[m1]).0 != (
                #[trigger] pr2[m2]).0 && pr2[m1].0 != pr2[m2].1 && pr2[m1].1 != pr2[m2].0 && pr2[
                m1].1 != pr2[m2].1 by {
                    let o1: int = if m1 < j {
                        m1
                    } else {
                        m1 + 1
                    };
                    let o2: int = if m2 < j {
                        m2
                    } else {
                        m2 + 1
                    };
                    assert(pr2[m1] == pr[o1] && pr2[m2] == pr[o2]);
                    assert(0 <= o1 < o2 < pr.len());
                    assert((#[trigger] pr[o1]).0 != (#[trigger] pr[o2]).0 && pr[o1].0 != pr[
                    o2].1 && pr[o1].1 != pr[o2].0 && pr[o1].1 != pr[o2].1);
                }
                assert forall|x: usize| #[trigger] rest_teams.contains(x) <==> in_pairs(
                    pr2,
                    x,
                ) by {
                    if rest_teams.contains(x) {
                        assert(teams.contains(x) && x != k && x != v);
                        assert(in_pairs(pr, x));
                        let m = choose|m: int|
                            0 <= m < pr.len() && ((#[trigger] pr[m]).0 == x || pr[m].1 == x);
                        assert(m != j);
                        let m2: int = if m < j {
                            m
                        } else {
                            m - 1
                        };
                        assert(pr2[m2] == pr[m]);
                        assert(in_pairs(pr2, x)) by {
                            assert((#[trigger] pr2[m2]).0 == x || pr2[m2].1 == x);
                        }
                    }
                    if in_pairs(pr2, x) {
                        let m = choose|m: int|
                            0 <= m < pr2.len() && ((#[trigger] pr2[m]).0 == x || pr2[m].1 == x);
                        let o: int = if m < j {
                            m
                        } else {
                            m + 1
                        };
                        assert(pr2[m] == pr[o]);
                        assert(in_pairs(pr, x)) by {
                            assert((#[trigger] pr[o]).0 == x || pr[o].1 == x);
                        }
                        assert(teams.contains(x));
                        if x == k || x == v {
                            assert(o != j);
                            if o < j {
                                assert((#[trigger] pr[o]).0 != (#[trigger] pr[j]).0 && pr[o].0
                                    != pr[j].1 && pr[o].1 != pr[j].0 && pr[o].1 != pr[j].1);
                            } else {
                                assert((#[trigger] pr[j]).0 != (#[trigger] pr[o]).0 && pr[j].0
                                    != pr[o].1 && pr[j].1 != pr[o].0 && pr[j].1 != pr[o].1);
                            }
                            assert(false);
                        }
                        assert(rest_teams.contains(x));
                    }
                }
            }
            assert(pairs_from_map(map, idx + 1, pr2)) by {
                assert forall|m: int| 0 <= m < pr2.len() implies pair_from_map(
                    map,
                    idx + 1,
                    (#[trigger] pr2[m]).0,
                    pr2[m].1,
                ) by {
                    let o: int = if m < j {
                        m
                    } else {
                        m + 1
                    };
                    assert(pr2[m] == pr[o]);
                    assert(pair_from_map(map, idx, pr[o].0, pr[o].1)) by {
                        assert((#[trigger] pr[o]).0 == pr[o].0);
                    }
                    let i2 = choose|i2: int|
                        idx <= i2 < map.len() && (#[trigger] map[i2]).0 == pr[o].0 && map[
                        i2].1.contains(pr[o].1);
                    if i2 == idx {
                        assert(pr[o].0 == k);
                        assert(o != j);
                        if o < j {
                            assert((#[trigger] pr[o]).0 != (#[trigger] pr[j]).0 && pr[o].0 != pr[
                            j].1 && pr[o].1 != pr[j].0 && pr[o].1 != pr[j].1);
                        } else {
                            assert((#[trigger] pr[j]).0 != (#[trigger] pr[o]).0 && pr[j].0 != pr[
                            o].1 && pr[j].1 != pr[o].0 && pr[j].1 != pr[o].1);
                        }
                        assert(false);
                    }
                    assert(idx + 1 <= i2 < map.len() && map[i2].0 == pr2[m].0 && map[i2].1.contains(
                        pr2[m].1,
                    ));
                }
            }
            assert(strictly_sorted(rest_teams));
            assert(exists|pp: Seq<(usize, usize)>|
                #[trigger] pairing_covers(rest_teams, pp) && pairs_from_map(map, idx + 1, pp)) by {
                assert(pairing_covers(rest_teams, pr2) && pairs_from_map(map, idx + 1, pr2));
            }
            lemma_day_rec_complete(map, idx + 1, rest_teams);
            lemma_day_try_at(map, idx, teams, 0, q);
        } else {
            assert(pairs_from_map(map, idx + 1, pr)) by {
                assert forall|m: int| 0 <= m < pr.len() implies pair_from_map(
                    map,
                    idx + 1,
                    (#[trigger] pr[m]).0,
                    pr[m].1,
                ) by {
                    assert(pair_from_map(map, idx, pr[m].0, pr[m].1)) by {
                        assert((#[trigger] pr[m]).0 == pr[m].0);
                    }
                    let i = choose|i: int|
                        idx <= i < map.len() && (#[trigger] map[i]).0 == pr[m].0 && map[
                        i].1.contains(pr[m].1);
                    if i == idx {
                        assert(in_pairs(pr, pr[m].0)) by {
                            assert((#[trigger] pr[m]).0 == pr[m].0);
                        }
                        assert(teams.contains(k));
                        assert(false);
                    }
                    assert(idx + 1 <= i < map.len() && map[i].0 == pr[m].0 && map[i].1.contains(
                        pr[m].1,
                    ));
                }
            }
            assert(exists|pp: Seq<(usize, usize)>|
                #[trigger] pairing_covers(teams, pp) && pairs_from_map(map, idx + 1, pp)) by {
                assert(pairing_covers(teams, pr) && pairs_from_map(map, idx + 1, pr));
            }
            lemma_day_rec_complete(map, idx + 1, teams);
        }
    }
}

/// Law: the day-feasibility check is complete, the converse of
/// `lemma_feasibility_check_sound`. Whenever the available list has a
/// perfect pairing drawn from a game list of ascending pairs, the check —
/// run, as the search runs it, on the key-sorted deduplicated list —
/// accepts. Together the two laws say the check decides exactly whether a
/// perfect pairing exists.
pub proof fn lemma_feasibility_check_complete(avail: Seq<usize>, games: Seq<Game>)
    requires
        strictly_sorted(avail),
        forall|j: int| 0 <= j < games.len() ==> (#[trigger] games[j]).ti0 < games[j].ti1,
        exists|pr: Seq<(usize, usize)>|
            #[trigger] pairing_covers(avail, pr) && pairs_in_games(games, pr),
    ensures
        day_valid_s(avail, dedup_s(sort_by_key_s(games))),
{
    let srt = sort_by_key_s(games);
    let dd = dedup_s(srt);
    lemma_sort_by_key_sorted(games);
    lemma_dedup_sorted(srt);
    assert forall|j: int| 0 <= j < dd.len() implies (#[trigger] dd[j]).ti0 < dd[j].ti1 by {
        assert(dd.contains(dd[j]));
        lemma_dedup_contains(srt, dd[j]);
        lemma_sort_by_key_contains(games, dd[j]);
        assert(games.contains(dd[j]));
        let g = choose|g: int| 0 <= g < games.len() && games[g] == dd[j];
        assert((#[trigger] games[g]).ti0 < games[g].ti1);
    }
    assert forall|i: int, j: int|
        0 <= i < j < dd.len() implies (#[trigger] dd[i]).ti0 <= (#[trigger] dd[j]).ti0 by {
        assert(game_le(dd[i], dd[j]));
    }
    let m = build_map_s(dd, avail, 0, Seq::empty(), Seq::empty());
    lemma_build_map_complete(dd, avail, 0, Seq::empty(), Seq::empty());
    let pr = choose|pr: Seq<(usize, usize)>|
        #[trigger] pairing_covers(avail, pr) && pairs_in_games(games, pr);
    assert(pairs_from_map(m, 0, pr)) by {
        assert forall|w: int| 0 <= w < pr.len() implies pair_from_map(
            m,
            0,
            (#[trigger] pr[w]).0,
            pr[w].1,
        ) by {
            let a = pr[w].0;
            let b = pr[w].1;
            assert(pair_in_games(games, a, b)) by {
                assert((#[trigger] pr[w]).0 == a);
            }
            let g = choose|g: int| 0 <= g < games.len() && (#[trigger] games[g]).ti0 == a && games[g].ti1 == b;
            lemma_sort_by_key_contains(games, games[g]);
            lemma_dedup_contains(srt, games[g]);
            assert(games.contains(games[g])) by {
                assert(games[g] == games[g]);
            }
            assert(dd.contains(games[g]));
            let dj = choose|dj: int| 0 <= dj < dd.len() && dd[dj] == games[g];
            assert(avail.contains(a)) by {
                assert(in_pairs(pr, a)) by {
                    assert((#[trigger] pr[w]).0 == a);
                }
            }
            assert(avail.contains(b)) by {
                assert(in_pairs(pr, b)) by {
                    assert((#[trigger] pr[w]).1 == b);
                }
            }
            assert(avail.contains((#[trigger] dd[dj]).ti0) && avail.contains(dd[dj].ti1));
            assert(pair_from_map(m, 0, dd[dj].ti0, dd[dj].ti1));
        }
    }
    assert(exists|pp: Seq<(usize, usize)>|
        #[trigger] pairing_covers(avail, pp) && pairs_from_map(m, 0, pp)) by {
        assert(pairing_covers(avail, pr) && pairs_from_map(m, 0, pr));
    }
    lemma_day_rec_complete(m, 0, avail);
}

/// Law: the global feasibility prune is sound at the node level. The
/// search never discards a node whose remaining games are ascending pairs
/// and whose every not-yet-started day still has a perfect pairing drawn
/// from them.
pub proof fn lemma_feasibility_prune_sound(c: CfgV)
    requires
        forall|k: int|
            0 <= k < c.remaining_games.len() ==> (#[trigger] c.remaining_games[k]).ti0
                < c.remaining_games[k].ti1,
        forall|d: int|
            c.days_index < d < c.days.len() ==> strictly_sorted(
                #[trigger] c.days[d].teams_remaining,
            ),
        forall|d: int|
            #![trigger c.days[d]]
            c.days_index < d < c.days.len() ==> exists|pr: Seq<(usize, usize)>|
                pairing_covers(c.days[d].teams_remaining, pr) && pairs_in_games(
                    c.remaining_games,
                    pr,
                ),
    ensures
        cfg_valid_s(c),
{
    assert forall|d: int| c.days_index < d < c.days.len() implies day_valid_s(
        #[trigger] c.days[d].teams_remaining,
        dedup_s(sort_by_key_s(c.remaining_games)),
    ) by {
        lemma_feasibility_check_complete(c.days[d].teams_remaining, c.remaining_games);
    }
}

} // verus!
