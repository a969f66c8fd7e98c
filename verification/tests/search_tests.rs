use interleague_schedule::interleague_schedule::{days_all_even, Day, Game, ScheduleConfig};
use interleague_schedule::matrix::create_matrix_with_dimension;
use interleague_schedule::sample_data::{
    get_2023_aaa_softball_days, get_2023_majors_softball_days, get_2024_aaa_softball_days,
    get_state_from_league_info,
};
use interleague_schedule::teams::{build_game_list, get_teams_to_play_against};

fn open_day(date: &str, teams: Vec<usize>) -> Day {
    Day {
        date: date.to_string(),
        is_weekend: false,
        teams_remaining: teams,
        games: vec![],
    }
}

fn four_team_games() -> Vec<Game> {
    let mut state = get_state_from_league_info(&vec![("L".to_string(), 4)]);
    let ldm = create_matrix_with_dimension(1);
    let m = get_teams_to_play_against(&mut state, &ldm, 6);
    build_game_list(&state, &m, &ldm)
}

#[test]
fn four_team_roster_yields_twelve_games() {
    // Each of the six unordered pairs plays twice under the in-league rule,
    // and a cap of six forbids any further games.
    let games = four_team_games();
    assert_eq!(games.len(), 12);
    for g in &games {
        assert!(g.ti0 < g.ti1 && g.ti1 < 4);
        assert_eq!(g.distance, 0);
    }
}

#[test]
fn four_team_two_day_schedule_succeeds() {
    let games = four_team_games();
    let days = vec![
        open_day("d1", vec![0, 1, 2, 3]),
        open_day("d2", vec![0, 1, 2, 3]),
    ];
    let config = ScheduleConfig::new(days, games);
    let solution = config.solve();
    assert!(solution.is_some());
    let sol = solution.unwrap();
    assert_eq!(sol.days_index, 2);
    for day in &sol.days {
        // Every day is fully paired off: two games, four distinct teams
        // drawn from the day's original available set, nobody double-booked.
        assert!(day.teams_remaining.is_empty());
        assert_eq!(day.games.len(), 2);
        let mut seen = vec![false; 4];
        for g in &day.games {
            assert!(g.ti0 < 4 && g.ti1 < 4 && g.ti0 != g.ti1);
            assert!(!seen[g.ti0] && !seen[g.ti1]);
            seen[g.ti0] = true;
            seen[g.ti1] = true;
        }
    }
}

#[test]
fn four_team_six_day_schedule_places_every_game() {
    let games = four_team_games();
    let days = (0..6)
        .map(|k| open_day(&format!("d{}", k), vec![0, 1, 2, 3]))
        .collect::<Vec<_>>();
    let config = ScheduleConfig::new(days, games);
    let solution = config.solve();
    assert!(solution.is_some());
    let sol = solution.unwrap();
    assert_eq!(sol.days_index, 6);
    assert!(sol.remaining_games.is_empty());
    let placed: usize = sol.days.iter().map(|d| d.games.len()).sum();
    assert_eq!(placed, 12);
}

#[test]
fn odd_available_day_reports_no_solution() {
    // Three available teams can never be perfectly paired: the search must
    // exhaust and report no solution.
    let games = vec![Game { ti0: 0, ti1: 1, distance: 0 }];
    let days = vec![open_day("d1", vec![0, 1, 2])];
    assert!(!days_all_even(&days));
    let config = ScheduleConfig::new(days, games);
    assert!(config.solve().is_none());
}

#[test]
fn goal_is_cursor_past_last_day() {
    let config = ScheduleConfig::new(vec![], vec![]);
    assert!(config.is_goal());
    let config2 = ScheduleConfig::new(vec![open_day("d1", vec![])], vec![]);
    assert!(!config2.is_goal());
    let solution = config2.solve();
    assert!(solution.is_some());
    assert_eq!(solution.unwrap().days_index, 1);
}

#[test]
fn sample_calendars_have_even_days() {
    let majors = get_2023_majors_softball_days(13);
    assert_eq!(majors.len(), 18);
    assert_eq!(majors[0].date, "3/23");
    assert!(majors[0].is_weekend);
    assert_eq!(majors[1].date, "3/27");
    assert!(!majors[1].is_weekend);
    assert_eq!(
        majors[0].teams_remaining,
        vec![0, 1, 2, 3, 4, 5, 6, 7, 8, 9, 10, 11]
    );
    assert_eq!(majors[4].teams_remaining, vec![0, 6, 8, 9]);
    assert!(days_all_even(&majors));

    let aaa23 = get_2023_aaa_softball_days(23);
    assert_eq!(aaa23.len(), 16);
    assert_eq!(aaa23[4].teams_remaining, vec![0, 1, 2, 3]);

    // The 2024 calendar excludes nobody, so it needs an even roster: with
    // an odd one every day would be odd and the search could never succeed.
    let aaa24 = get_2024_aaa_softball_days(24);
    assert_eq!(aaa24.len(), 15);
    assert_eq!(aaa24[0].teams_remaining.len(), 24);
    assert!(days_all_even(&aaa24));
}
