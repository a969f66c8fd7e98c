use interleague_schedule::interleague_schedule::{sort_games_by_distance, Game};
use interleague_schedule::matrix::{create_matrix_with_dimension, get_matrix_val};
use interleague_schedule::sample_data::{
    get_2023_majors_softball_state, get_district8_city_league_distances,
    get_state_from_league_info,
};
use interleague_schedule::teams::{
    add_game, assign_in_league_games, build_game_list, get_teams_to_play_against,
};

#[test]
fn district8_distances_table() {
    let ldm = get_district8_city_league_distances();
    assert_eq!(ldm.len(), 8);
    assert_eq!(get_matrix_val(&ldm, 0, 1), 3);
    assert_eq!(get_matrix_val(&ldm, 1, 0), 3);
    assert_eq!(get_matrix_val(&ldm, 0, 5), 1);
    assert_eq!(get_matrix_val(&ldm, 1, 2), 4);
    assert_eq!(get_matrix_val(&ldm, 5, 7), 1);
    assert_eq!(get_matrix_val(&ldm, 7, 6), 1);
}

#[test]
fn add_game_updates_both_teams() {
    let mut state = get_state_from_league_info(&vec![("A".to_string(), 2)]);
    let mut m = create_matrix_with_dimension(2);
    add_game(&mut state.teams, &mut m, 0, 1);
    assert_eq!(state.teams[0].num_games, 1);
    assert_eq!(state.teams[1].num_games, 1);
    assert_eq!(state.teams[0].teams_against, vec![1]);
    assert_eq!(state.teams[1].teams_against, vec![0]);
    assert_eq!(get_matrix_val(&m, 0, 1), 1);
    assert_eq!(get_matrix_val(&m, 1, 0), 1);
}

#[test]
fn in_league_opponents_each_appear_exactly_twice() {
    // One league of three teams: after the in-league pass every team has
    // played each league mate exactly twice and holds four games.
    let mut state = get_state_from_league_info(&vec![("A".to_string(), 3)]);
    let mut m = create_matrix_with_dimension(3);
    assign_in_league_games(&mut state, &mut m, 16);
    for t in 0..3usize {
        assert_eq!(state.teams[t].num_games, 4);
        for o in 0..3usize {
            if o != t {
                let c = state.teams[t]
                    .teams_against
                    .iter()
                    .filter(|x| **x == o)
                    .count();
                assert_eq!(c, 2);
            }
        }
    }
    assert_eq!(get_matrix_val(&m, 0, 1), 2);
    assert_eq!(get_matrix_val(&m, 0, 2), 2);
    assert_eq!(get_matrix_val(&m, 1, 2), 2);
}

#[test]
fn majors_roster_layout() {
    let state = get_2023_majors_softball_state();
    assert_eq!(state.leagues.len(), 8);
    assert_eq!(state.teams.len(), 13);
    assert_eq!(state.leagues[0].name, "SL");
    assert_eq!(state.leagues[0].team_index_range, (0, 1));
    assert_eq!(state.leagues[1].name, "NE");
    assert_eq!(state.leagues[1].team_index_range, (1, 4));
    assert_eq!(state.leagues[7].name, "NC");
    assert_eq!(state.leagues[7].team_index_range, (11, 13));
}

#[test]
fn builder_respects_game_cap() {
    let mut state = get_2023_majors_softball_state();
    let ldm = get_district8_city_league_distances();
    let m = get_teams_to_play_against(&mut state, &ldm, 16);
    assert_eq!(m.len(), 13);
    for t in &state.teams {
        assert!(0 <= t.num_games && t.num_games <= 16);
        assert_eq!(t.num_games as usize, t.teams_against.len());
    }
}

#[test]
fn team_game_matrix_is_symmetric() {
    let mut state = get_2023_majors_softball_state();
    let ldm = get_district8_city_league_distances();
    let m = get_teams_to_play_against(&mut state, &ldm, 16);
    for i in 0..13usize {
        for j in 0..13usize {
            assert_eq!(get_matrix_val(&m, i, j), get_matrix_val(&m, j, i));
        }
    }
}

#[test]
fn builder_is_deterministic() {
    let ldm = get_district8_city_league_distances();
    let mut s1 = get_2023_majors_softball_state();
    let m1 = get_teams_to_play_against(&mut s1, &ldm, 16);
    let mut s2 = get_2023_majors_softball_state();
    let m2 = get_teams_to_play_against(&mut s2, &ldm, 16);
    assert_eq!(m1, m2);
    assert_eq!(s1.teams.len(), s2.teams.len());
    for t in 0..s1.teams.len() {
        assert_eq!(s1.teams[t].num_games, s2.teams[t].num_games);
        assert_eq!(s1.teams[t].teams_against, s2.teams[t].teams_against);
    }
    let g1 = build_game_list(&s1, &m1, &ldm);
    let g2 = build_game_list(&s2, &m2, &ldm);
    assert_eq!(g1, g2);
}

#[test]
fn game_list_matches_matrix_and_is_sorted() {
    let mut state = get_2023_majors_softball_state();
    let ldm = get_district8_city_league_distances();
    let m = get_teams_to_play_against(&mut state, &ldm, 16);
    let games = build_game_list(&state, &m, &ldm);
    let mut total = 0i32;
    for i in 0..13usize {
        for j in (i + 1)..13usize {
            let c = get_matrix_val(&m, i, j);
            total += c;
            let found = games
                .iter()
                .filter(|g| g.ti0 == i && g.ti1 == j)
                .count();
            assert_eq!(found as i32, c);
        }
    }
    assert_eq!(games.len() as i32, total);
    for w in games.windows(2) {
        assert!(w[0].distance <= w[1].distance);
    }
    for g in &games {
        let d = get_matrix_val(
            &ldm,
            state.teams[g.ti0].league_index,
            state.teams[g.ti1].league_index,
        );
        assert_eq!(g.distance, d);
    }
}

#[test]
fn distance_sort_is_stable() {
    let games = vec![
        Game { ti0: 4, ti1: 5, distance: 2 },
        Game { ti0: 0, ti1: 1, distance: 1 },
        Game { ti0: 2, ti1: 3, distance: 1 },
        Game { ti0: 6, ti1: 7, distance: 0 },
    ];
    let sorted = sort_games_by_distance(&games);
    assert_eq!(
        sorted,
        vec![
            Game { ti0: 6, ti1: 7, distance: 0 },
            Game { ti0: 0, ti1: 1, distance: 1 },
            Game { ti0: 2, ti1: 3, distance: 1 },
            Game { ti0: 4, ti1: 5, distance: 2 },
        ]
    );
}
