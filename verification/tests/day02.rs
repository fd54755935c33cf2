use puzzles::day02::{parse_game_line, Day2Solver, RevealedDice};

#[test]
fn day02_test_part_1_unit_test() {
    let lines = vec![
        "Game 1: 3 blue, 4 red; 1 red, 2 green, 6 blue; 2 green".to_string(),
        "Game 2: 1 blue, 2 green; 3 green, 4 blue, 1 red; 1 green, 1 blue".to_string(),
        "Game 3: 8 green, 6 blue, 20 red; 5 blue, 4 red, 13 green; 5 green, 1 red".to_string(),
        "Game 4: 1 green, 3 red, 6 blue; 3 green, 6 red; 3 green, 15 blue, 14 red".to_string(),
        "Game 5: 6 red, 1 blue, 3 green; 2 blue, 1 red, 2 green   ".to_string(),
    ];
    let solver = Day2Solver {};
    assert_eq!(solver.solve_part_1(lines), "8");
}

#[test]
fn day02_test_part_2_unit_test() {
    let lines = vec![
        "Game 1: 3 blue, 4 red; 1 red, 2 green, 6 blue; 2 green".to_string(),
        "Game 2: 1 blue, 2 green; 3 green, 4 blue, 1 red; 1 green, 1 blue".to_string(),
        "Game 3: 8 green, 6 blue, 20 red; 5 blue, 4 red, 13 green; 5 green, 1 red".to_string(),
        "Game 4: 1 green, 3 red, 6 blue; 3 green, 6 red; 3 green, 15 blue, 14 red".to_string(),
        "Game 5: 6 red, 1 blue, 3 green; 2 blue, 1 red, 2 green   ".to_string(),
    ];
    let solver = Day2Solver {};
    assert_eq!(solver.solve_part_2(lines), "2286");
}

#[test]
fn game_line_parses_exactly() {
    let game = parse_game_line("Game 12: 3 blue, 4 red; 2 green").unwrap();
    assert_eq!(game.id, 12);
    assert_eq!(game.game_reveals.len(), 2);
    assert_eq!(game.game_reveals[0], RevealedDice { red: 4, blue: 3, green: 0 });
    assert_eq!(game.game_reveals[1], RevealedDice { red: 0, blue: 0, green: 2 });
}

#[test]
fn game_line_rejects_malformed() {
    assert!(parse_game_line("Game x: 3 blue").is_none());
    assert!(parse_game_line("Gome 1: 3 blue").is_none());
    assert!(parse_game_line("Game 1: 3 yellow").is_none());
    assert!(parse_game_line("Game 1:").is_none());
}

#[test]
fn min_dice_is_componentwise_maximum() {
    let game = parse_game_line("Game 7: 1 red, 9 blue; 5 red, 2 green").unwrap();
    let m = game.min_dice_required();
    assert_eq!(m, RevealedDice { red: 5, blue: 9, green: 2 });
}
