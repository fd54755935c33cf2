use puzzles::day03::{schema_from_lines, Day3Solver, Location, Part};

fn sample() -> Vec<String> {
    vec![
        "467..114..".to_string(),
        "...*......".to_string(),
        "..35..633.".to_string(),
        "......#...".to_string(),
        "617*......".to_string(),
        ".....+.58.".to_string(),
        "..592.....".to_string(),
        "......755.".to_string(),
        "...$.*....".to_string(),
        ".664.598..".to_string(),
    ]
}

#[test]
fn day03_test_part_1_unit() {
    let solver = Day3Solver {};
    assert_eq!(solver.solve_part_1(sample()), "4361");
}

#[test]
fn day03_test_part_2_unit() {
    let solver = Day3Solver {};
    assert_eq!(solver.solve_part_2(sample()), "467835");
}

#[test]
fn schema_scans_numbers_and_symbols() {
    let schema = schema_from_lines(vec!["467..114.$".to_string()]);
    assert_eq!(schema.parts.len(), 2);
    assert_eq!(schema.parts[0].id, 467);
    assert_eq!(schema.parts[0].location, Location { x: 0, y: 0 });
    assert_eq!(schema.parts[0].width, 3);
    assert_eq!(schema.parts[1].id, 114);
    assert_eq!(schema.parts[1].location, Location { x: 5, y: 0 });
    assert_eq!(schema.symbols.len(), 1);
    assert_eq!(schema.symbols[0].symbol, '$');
    assert_eq!(schema.symbols[0].location, Location { x: 9, y: 0 });
}

#[test]
fn adjacency_is_the_bounding_box() {
    let p = Part::new(35, Location { x: 2, y: 2 }, 2);
    assert!(p.is_adjacent_to(&Location { x: 3, y: 1 }));
    assert!(p.is_adjacent_to(&Location { x: 1, y: 3 }));
    assert!(p.is_adjacent_to(&Location { x: 4, y: 2 }));
    assert!(!p.is_adjacent_to(&Location { x: 5, y: 2 }));
    assert!(!p.is_adjacent_to(&Location { x: 3, y: 4 }));
}
