use puzzles::cubes::{
    minimum_set_of_cubes, parse_draw, parse_game, parse_games, power_of_fewest_cubes_per_color,
    sum_of_possible_game_ids, CubeCounts, Game,
};

const SAMPLE: &str = "Game 1: 3 blue, 4 red; 1 red, 2 green, 6 blue; 2 green
Game 2: 1 blue, 2 green; 3 green, 4 blue, 1 red; 1 green, 1 blue
Game 3: 8 green, 6 blue, 20 red; 5 blue, 4 red, 13 green; 5 green, 1 red
Game 4: 1 green, 3 red, 6 blue; 3 green, 6 red; 3 green, 15 blue, 14 red
Game 5: 6 red, 1 blue, 3 green; 2 blue, 1 red, 2 green
";

#[test]
fn validate_sample_for_sum_of_possible_game_ids() {
    let sum = sum_of_possible_game_ids(SAMPLE);
    assert_eq!(sum, Some(8));
}

#[test]
fn parsing_games_from_line() {
    let examples = [(
        "Game 1: 3 blue, 4 red; 1 red, 2 green, 6 blue; 2 green",
        Game {
            id: 1,
            cube_draws: vec![
                CubeCounts { blue: 3, red: 4, green: 0 },
                CubeCounts { red: 1, green: 2, blue: 6 },
                CubeCounts { red: 0, green: 2, blue: 0 },
            ],
        },
    )];

    for (input, expected) in examples.into_iter() {
        let actual = parse_game(input).unwrap();
        assert_eq!(actual, expected);
    }
}

#[test]
fn validate_sample_for_power_set_of_fewest_cubes() {
    let power = power_of_fewest_cubes_per_color(SAMPLE);
    assert_eq!(power, Some(2286));
}

#[test]
fn malformed_games_are_rejected() {
    assert_eq!(parse_game("Game 1 3 blue"), None);
    assert_eq!(parse_game("Game: 3 blue"), None);
    assert_eq!(parse_game("Game x: 3 blue"), None);
    assert_eq!(parse_game("Game 2: 3 purple"), None);
    assert_eq!(parse_game("Game 2: three blue"), None);
    assert_eq!(sum_of_possible_game_ids("Game 1: 3 blue\nnot a game\n"), None);
    assert_eq!(power_of_fewest_cubes_per_color("Game 1: 3 blue\nGame 2: 3 red,4 blue\n"), None);
}

#[test]
fn draws_set_each_named_colour() {
    assert_eq!(parse_draw("3 blue, 4 red"), Some(CubeCounts { red: 4, green: 0, blue: 3 }));
    assert_eq!(parse_draw("1 red, 2 red"), Some(CubeCounts { red: 2, green: 0, blue: 0 }));
    assert_eq!(parse_draw("1 red,"), None);
}

#[test]
fn cube_count_operations() {
    let a = CubeCounts { red: 4, green: 2, blue: 6 };
    let b = CubeCounts { red: 1, green: 3, blue: 6 };
    assert_eq!(a.max(&b), CubeCounts { red: 4, green: 3, blue: 6 });
    assert_eq!(a.power(), 48);
    assert!(b.is_subset_of(&CubeCounts { red: 12, green: 13, blue: 14 }));
    assert!(!a.is_subset_of(&b));
    assert_eq!(CubeCounts::empty(), CubeCounts { red: 0, green: 0, blue: 0 });
    let big = CubeCounts { red: u32::MAX, green: u32::MAX, blue: u32::MAX };
    assert_eq!(big.power(), (u32::MAX as u128).pow(3));
}

#[test]
fn fewest_cubes_of_a_game() {
    let games = parse_games(SAMPLE).unwrap();
    assert_eq!(games.len(), 5);
    assert_eq!(minimum_set_of_cubes(&games[0]), CubeCounts { red: 4, green: 2, blue: 6 });
    assert_eq!(minimum_set_of_cubes(&games[2]), CubeCounts { red: 20, green: 13, blue: 6 });
    let empty = Game { id: 9, cube_draws: vec![] };
    assert_eq!(minimum_set_of_cubes(&empty), CubeCounts::empty());
}

#[test]
fn bag_limits_are_inclusive() {
    assert_eq!(sum_of_possible_game_ids("Game 7: 12 red, 13 green, 14 blue\n"), Some(7));
    assert_eq!(sum_of_possible_game_ids("Game 7: 13 red\n"), Some(0));
}
