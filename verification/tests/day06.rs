use puzzles::day06::{parse_race_info, Day6Solver, LinearSpeedStrategy, RaceInfo};

#[test]
fn distances_are_quadratic() {
    let strat = LinearSpeedStrategy {
        race_info: RaceInfo { race_duration_in_seconds: 7, distance_to_beat: 9 },
    };
    assert_eq!(strat.distance_for_hold_duration(0), 0);
    assert_eq!(strat.distance_for_hold_duration(2), 10);
    assert_eq!(strat.distance_for_hold_duration(4), 12);
    assert_eq!(strat.distance_for_hold_duration(7), 0);
}

#[test]
fn winning_holds_beat_the_record() {
    let strat = LinearSpeedStrategy {
        race_info: RaceInfo { race_duration_in_seconds: 7, distance_to_beat: 9 },
    };
    assert_eq!(strat.winning_charge_durations(), vec![2, 3, 4, 5]);
}

#[test]
fn race_lines_parse() {
    assert_eq!(parse_race_info("  7 15   30"), vec![7, 15, 30]);
    assert_eq!(parse_race_info("9"), vec![9]);
}

#[test]
fn race_products_multiply_win_counts() {
    let lines = vec![
        "Time:      7  15   30".to_string(),
        "Distance:  9  40  200".to_string(),
    ];
    let solver = Day6Solver {};
    assert_eq!(solver.solve_part_1(lines), "288");
}
