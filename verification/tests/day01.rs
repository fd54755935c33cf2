use puzzles::day01::{Day1Solver, NumberParser};

#[test]
fn day01_test_part_1_unit() {
    let solver = Day1Solver {};
    let lines = vec!["1234".to_string()];
    assert_eq!(solver.solve_part_1(lines), "14");
    let lines = vec!["1xx4".to_string()];
    assert_eq!(solver.solve_part_1(lines), "14");
    let lines = vec!["1xxx".to_string()];
    assert_eq!(solver.solve_part_1(lines), "11", "single number");
    let lines = vec!["100000005x0".to_string()];
    assert_eq!(solver.solve_part_1(lines), "10");
}

#[test]
fn day01_test_part_2_unit() {
    let solver = Day1Solver {};
    let lines = vec![
        "two1nine".to_string(),
        "eightwothree".to_string(),
        "abcone2threexyz".to_string(),
        "xtwone3four".to_string(),
        "4nineeightseven2".to_string(),
        "zoneight234".to_string(),
        "7pqrstsixteen".to_string(),
    ];
    assert_eq!(solver.solve_part_2(lines), "281");
}

#[test]
fn test_part_2_single_number() {
    let solver = Day1Solver {};
    let lines = vec!["v4".to_string()];
    assert_eq!(solver.solve_part_2(lines), "44");
}

#[test]
fn test_number_parser() {
    let mut parser = NumberParser::new("1234");
    assert_eq!(parser.parse_at_current(), Some(1));
    assert_eq!(parser.parse_at_current(), Some(2));
    assert_eq!(parser.parse_at_current(), Some(3));
    assert_eq!(parser.parse_at_current(), Some(4));
    assert_eq!(parser.parse_at_current(), None);
}

#[test]
fn test_number_parser_some_letters() {
    let mut parser = NumberParser::new("1xx4");
    assert_eq!(parser.parse_at_current(), Some(1));
    assert_eq!(parser.parse_at_current(), None);
    assert_eq!(parser.parse_at_current(), None);
    assert_eq!(parser.parse_at_current(), Some(4));
    assert_eq!(parser.parse_at_current(), None);
}

#[test]
fn test_with_named_numbers() {
    let mut parser = NumberParser::new("xonextwothree4xfiv6e");
    assert_eq!(parser.parse_at_current(), None);
    assert_eq!(parser.parse_at_current(), Some(1));
    assert_eq!(parser.parse_at_current(), None);
    assert_eq!(parser.parse_at_current(), None);
    assert_eq!(parser.parse_at_current(), None);
    assert_eq!(parser.parse_at_current(), Some(2));
    assert_eq!(parser.parse_at_current(), None);
    assert_eq!(parser.parse_at_current(), None);
    assert_eq!(parser.parse_at_current(), Some(3));
    assert_eq!(parser.parse_at_current(), None);
    assert_eq!(parser.parse_at_current(), None);
    assert_eq!(parser.parse_at_current(), None);
    assert_eq!(parser.parse_at_current(), None);
    assert_eq!(parser.parse_at_current(), Some(4));
    assert_eq!(parser.parse_at_current(), None);
    assert_eq!(parser.parse_at_current(), None);
    assert_eq!(parser.parse_at_current(), None);
    assert_eq!(parser.parse_at_current(), None);
    assert_eq!(parser.parse_at_current(), Some(6));
    assert_eq!(parser.parse_at_current(), None);
}

#[test]
fn test_with_more_lines() {
    let mut parser = NumberParser::new("tsgbzmgbonethreedrqzbhxjkvcnm3");
    let mut actual_digits = vec![];
    while parser.has_next() {
        let val = parser.parse_at_current();
        if val.is_some() {
            actual_digits.push(val.unwrap());
        }
    }
    assert_eq!(actual_digits, vec![1, 3, 3]);
}
