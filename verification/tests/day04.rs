use puzzles::day04::{parse_card, Day4Solver};

fn sample() -> Vec<String> {
    [
        "Card 1: 41 48 83 86 17 | 83 86  6 31 17  9 48 53",
        "Card 2: 13 32 20 16 61 | 61 30 68 82 17 32 24 19",
        "Card 3:  1 21 53 59 44 | 69 82 63 72 16 21 14  1",
        "Card 4: 41 92 73 84 69 | 59 84 76 51 58  5 54 83",
        "Card 5: 87 83 26 28 32 | 88 30 70 12 93 22 82 36",
        "Card 6: 31 18 13 56 72 | 74 77 10 23 35 67 36 11",
    ]
    .iter()
    .map(|s| s.to_string())
    .collect()
}

#[test]
fn day04_test_part_1_unit_test() {
    let solver = Day4Solver {};
    let result = solver.solve_part_1(sample());
    assert_eq!(result, "13");
}

#[test]
fn day04_test_part_2_unit_test() {
    let solver = Day4Solver {};
    let result = solver.solve_part_2(sample());
    assert_eq!(result, "30");
}

#[test]
fn card_points_double_per_match() {
    let card = parse_card("Card 1: 41 48 83 86 17 | 83 86  6 31 17  9 48 53").unwrap();
    assert_eq!(card.number, 1);
    assert_eq!(card.num_matches(), 4);
    assert_eq!(card.points(), 8);
    let blank = parse_card("Card 9: 1 2 | 3 4").unwrap();
    assert_eq!(blank.num_matches(), 0);
    assert_eq!(blank.points(), 0);
}

#[test]
fn card_matches_count_distinct_values() {
    let card = parse_card("Card 3: 7 7 8 | 7 7 9 8").unwrap();
    assert_eq!(card.num_matches(), 2);
}

#[test]
fn card_rejects_malformed() {
    assert!(parse_card("Cord 1: 1 | 2").is_none());
    assert!(parse_card("Card 1: 1 2").is_none());
    assert!(parse_card("Card : 1 | 2").is_none());
}
