use line_puzzles::games::{minimum_power_total, possible_id_total, Draw, Game, GameError};

#[test]
fn test_minimum_example() {
    let line = "Game 1: 3 blue, 4 red; 1 red, 2 green, 6 blue; 2 green";
    let g = Game::from_line(line).unwrap();
    assert_eq!(g.minimum().power(), 48);
}

#[test]
fn test_example_complete() {
    let test = vec![
        "Game 1: 3 blue, 4 red; 1 red, 2 green, 6 blue; 2 green",
        "Game 2: 1 blue, 2 green; 3 green, 4 blue, 1 red; 1 green, 1 blue",
        "Game 3: 8 green, 6 blue, 20 red; 5 blue, 4 red, 13 green; 5 green, 1 red",
        "Game 4: 1 green, 3 red, 6 blue; 3 green, 6 red; 3 green, 15 blue, 14 red",
        "Game 5: 6 red, 1 blue, 3 green; 2 blue, 1 red, 2 green",
    ];
    let test = test
        .iter()
        .map(|x| {
            let g = Game::from_line(x).unwrap();
            g
        })
        .filter(|x| x.validate());

    let mut sum = 0;
    for t in test {
        sum += t.id;
    }

    assert_eq!(sum, 8);
}

#[test]
fn test_filter() {
    let line = "Game 3: 8 green, 6 blue, 20 red; 5 blue, 4 red, 13 green; 5 green, 1 red";
    let draw = Game::from_line(line).unwrap();
    println!("Game: {:?}", draw);
    assert_eq!(draw.validate(), false);
}

#[test]
fn test_large_id() {
    let line = "Game 10: 3 blue, 4 red; 1 red, 2 green, 6 blue; 2 green";
    let game = Game::from_line(line).unwrap();
    assert_eq!(game.id, 10);
}

#[test]
fn test_parse_line() {
    let line = "Game 1: 3 blue, 4 red; 1 red, 2 green, 6 blue; 2 green";
    let game = Game::from_line(line).unwrap();
    assert_eq!(game.id, 1);
    assert_eq!(game.draws.len(), 3);
    assert_eq!(game.draws.get(0).unwrap().blue, 3);
}

#[test]
fn draws_are_read_in_order() {
    let game = Game::from_line("Game 7: 3 blue, 4 red; 1 red, 2 green, 6 blue; 2 green").unwrap();
    assert_eq!(
        game.draws,
        vec![
            Draw { blue: 3, red: 4, green: 0 },
            Draw { blue: 6, red: 1, green: 2 },
            Draw { blue: 0, red: 0, green: 2 },
        ]
    );
    assert_eq!(game.minimum(), Draw { blue: 6, red: 4, green: 2 });
}

#[test]
fn a_line_without_colon_has_no_draws() {
    let game = Game::from_line("Game 12").unwrap();
    assert_eq!(game, Game { id: 12, draws: vec![] });
    assert_eq!(game.validate(), true);
    assert_eq!(game.minimum(), Draw::default());
    assert_eq!(game.minimum().power(), 0);
}

#[test]
fn text_after_a_second_colon_is_not_read() {
    let game = Game::from_line("Game 4: 1 red: x blue").unwrap();
    assert_eq!(game.draws, vec![Draw { blue: 0, red: 1, green: 0 }]);
}

#[test]
fn a_missing_number_is_an_invalid_id() {
    assert_eq!(Game::from_line(""), Err(GameError::InvalidId));
    assert_eq!(Game::from_line("Game : 1 red"), Err(GameError::InvalidId));
    assert_eq!(Game::from_line("Game x: 1 red"), Err(GameError::InvalidId));
    assert_eq!(Game::from_line("Game -1: 1 red"), Err(GameError::InvalidId));
    assert_eq!(Game::from_line("Game x: y red"), Err(GameError::InvalidId));
    assert_eq!(
        Game::from_line("Game 99999999999999999999999999999999999999999: 1 red"),
        Err(GameError::InvalidId)
    );
}

#[test]
fn a_colour_without_number_is_an_invalid_count() {
    assert_eq!(Game::from_line("Game 1: red"), Err(GameError::InvalidCount));
    assert_eq!(Game::from_line("Game 1: 1 red; x blue"), Err(GameError::InvalidCount));
    assert_eq!(Draw::from_input("3 blue, four red"), Err(GameError::InvalidCount));
    assert_eq!(Draw::from_input("3blue"), Err(GameError::InvalidCount));
    assert_eq!(Draw::parse_inner(""), Err(GameError::InvalidCount));
    assert_eq!(Draw::parse_inner("  "), Err(GameError::InvalidCount));
    assert_eq!(Draw::parse_inner("+"), Err(GameError::InvalidCount));
}

#[test]
fn parse_inner_reads_the_leading_number() {
    assert_eq!(Draw::parse_inner(" 3 blue"), Ok(3));
    assert_eq!(Draw::parse_inner("\t 20 red \n"), Ok(20));
    assert_eq!(Draw::parse_inner("+7 green"), Ok(7));
    assert_eq!(Draw::parse_inner("007"), Ok(7));
    assert_eq!(Draw::parse_inner("5"), Ok(5));
    assert_eq!(Draw::parse_inner("5\tred"), Err(GameError::InvalidCount));
    assert_eq!(Draw::parse_inner("\u{a0}5 red\u{3000}"), Ok(5));
}

#[test]
fn from_input_fills_the_named_colours() {
    assert_eq!(Draw::from_input(" 3 blue, 4 red"), Ok(Draw { blue: 3, red: 4, green: 0 }));
    assert_eq!(Draw::from_input(""), Ok(Draw::default()));
    assert_eq!(Draw::from_input("5 yellow, x"), Ok(Draw::default()));
    assert_eq!(Draw::from_input("1 red, 2 red"), Ok(Draw { blue: 0, red: 2, green: 0 }));
    assert_eq!(Draw::from_input("4 redblue"), Ok(Draw { blue: 4, red: 0, green: 0 }));
    assert_eq!(Draw::from_input("4 greenred"), Ok(Draw { blue: 0, red: 0, green: 4 }));
}

#[test]
fn validate_goes_by_the_three_limits() {
    assert_eq!(Draw { blue: 14, red: 12, green: 13 }.validate(), true);
    assert_eq!(Draw { blue: 15, red: 12, green: 13 }.validate(), false);
    assert_eq!(Draw { blue: 14, red: 13, green: 13 }.validate(), false);
    assert_eq!(Draw { blue: 14, red: 12, green: 14 }.validate(), false);
    assert_eq!(Draw::default().validate(), true);
}

#[test]
fn power_is_the_product() {
    assert_eq!(Draw { blue: 6, red: 4, green: 2 }.power(), 48);
    assert_eq!(Draw { blue: 6, red: 4, green: 2 }.checked_power(), Some(48));
    assert_eq!(Draw { blue: usize::MAX, red: 2, green: 1 }.checked_power(), None);
    assert_eq!(Draw { blue: usize::MAX, red: 2, green: 0 }.checked_power(), None);
    assert_eq!(Draw { blue: usize::MAX, red: 1, green: 2 }.checked_power(), None);
    assert_eq!(Draw { blue: usize::MAX, red: 1, green: 1 }.checked_power(), Some(usize::MAX));
}

#[test]
fn default_game_is_game_zero() {
    assert_eq!(Game::default(), Game { id: 0, draws: vec![] });
}

#[test]
fn totals_over_the_example() {
    let content = "Game 1: 3 blue, 4 red; 1 red, 2 green, 6 blue; 2 green\n\
Game 2: 1 blue, 2 green; 3 green, 4 blue, 1 red; 1 green, 1 blue\n\
Game 3: 8 green, 6 blue, 20 red; 5 blue, 4 red, 13 green; 5 green, 1 red\n\
Game 4: 1 green, 3 red, 6 blue; 3 green, 6 red; 3 green, 15 blue, 14 red\n\
Game 5: 6 red, 1 blue, 3 green; 2 blue, 1 red, 2 green";
    assert_eq!(possible_id_total(content), Some(8));
    assert_eq!(minimum_power_total(content), Some(2286));
}

#[test]
fn a_line_that_is_no_game_counts_as_game_zero() {
    assert_eq!(possible_id_total(""), Some(0));
    assert_eq!(possible_id_total("Game 3: 1 red\n"), Some(3));
    assert_eq!(possible_id_total("Game 3: 20 red\n"), Some(0));
    assert_eq!(possible_id_total("Game 3: 1 red\nnonsense\nGame 4: x red\nGame 5: 2 blue"), Some(8));
    assert_eq!(minimum_power_total("Game 3: 2 red, 3 blue, 4 green\nnonsense\n"), Some(24));
    assert_eq!(minimum_power_total(""), Some(0));
}

#[test]
fn no_possible_game_gives_no_sum() {
    assert_eq!(possible_id_total("Game 3: 20 red"), None);
    assert_eq!(possible_id_total("Game 3: 20 red\nGame 4: 1 red; 15 blue"), None);
}

#[test]
fn a_power_outside_the_word_gives_no_sum() {
    let big = format!("Game 1: {} red, 2 blue, 1 green", usize::MAX);
    assert_eq!(minimum_power_total(&big), None);
    let edge = format!("Game 1: {} red, 1 blue, 1 green\nGame 2: {} red, 1 blue, 1 green", usize::MAX, usize::MAX);
    assert_eq!(minimum_power_total(&edge), Some(2 * (usize::MAX as u128)));
}

#[test]
fn id_sums_may_leave_the_word() {
    let content = format!("Game {}: 1 red\nGame {}: 1 blue", usize::MAX, usize::MAX);
    assert_eq!(possible_id_total(&content), Some(2 * (usize::MAX as u128)));
}
