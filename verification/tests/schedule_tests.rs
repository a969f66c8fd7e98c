use interleague_schedule::interleague_schedule::{Day, Game};
use interleague_schedule::matrix::create_matrix_with_dimension;

#[test]
fn matrix_tests() {
    let mut exp = create_matrix_with_dimension(2);
    exp[0][0] = 0;
    let act = create_matrix_with_dimension(2);
    assert_eq!(exp, act);
}

#[test]
fn day_is_valid() {
    let day = Day {
        date: "".to_string(),
        is_weekend: false,
        teams_remaining: vec![0, 1, 2, 3],
        games: vec![],
    };

    assert!(!day.is_valid(&vec![Game {
        ti0: 0,
        ti1: 1,
        distance: 1,
    },]));

    assert!(day.is_valid(&vec![
        Game {
            ti0: 0,
            ti1: 1,
            distance: 1,
        },
        Game {
            ti0: 2,
            ti1: 3,
            distance: 1,
        },
    ]));

    assert!(day.is_valid(&vec![
        Game {
            ti0: 0,
            ti1: 1,
            distance: 1,
        },
        Game {
            ti0: 0,
            ti1: 2,
            distance: 1,
        },
        Game {
            ti0: 2,
            ti1: 3,
            distance: 1,
        },
    ]));
}

#[test]
fn day_is_valid_skips_spent_keys() {
    // A chain 0-1, 1-2, 2-3: pairing 0 with 1 leaves 2 and 3, whose pair is
    // listed under the later key 2, so the check must skip key 1 and succeed.
    let day = Day {
        date: "".to_string(),
        is_weekend: false,
        teams_remaining: vec![0, 1, 2, 3],
        games: vec![],
    };
    assert!(day.is_valid(&vec![
        Game { ti0: 0, ti1: 1, distance: 0 },
        Game { ti0: 1, ti1: 2, distance: 0 },
        Game { ti0: 2, ti1: 3, distance: 0 },
    ]));
    // 0 can only pair with 1, stranding 2 with nobody but 3... here 2-3 is
    // absent, so no perfect pairing exists.
    assert!(!day.is_valid(&vec![
        Game { ti0: 0, ti1: 1, distance: 0 },
        Game { ti0: 1, ti1: 2, distance: 0 },
        Game { ti0: 1, ti1: 3, distance: 0 },
    ]));
}
