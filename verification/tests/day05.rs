use puzzles::day05::{
    find_min_location_for_seed_range, parse_range_mapper, parse_seeds, Day5Solver, MapRange,
    MapRangeCombiner, MapRangeLayer, Range,
};

#[test]
fn test_seed_ranges_min_location() {
    let seed_ranges = vec![Range::new(1, 10)];
    let map_range_combiner = MapRangeCombiner {
        mappers: vec![
            MapRangeLayer::from_ranges(
                "".to_string(),
                vec![MapRange::new(1, 5, 5), MapRange::new(6, 10, -4)],
            ),
            MapRangeLayer::from_ranges(
                "".to_string(),
                vec![
                    MapRange::new(1, 3, 7),
                    MapRange::new(4, 6, -3),
                    MapRange::new(7, 10, -3),
                ],
            ),
        ],
        name: "winner".to_string(),
    };
    assert_eq!(find_min_location_for_seed_range(seed_ranges, &map_range_combiner), 1);
}

#[test]
fn interval_operations() {
    let a = Range::new(3, 7);
    let b = Range::new(6, 12);
    let c = Range::new(9, 12);
    assert!(a.contains(3) && a.contains(7) && !a.contains(8));
    assert!(a.overlaps(&b) && b.overlaps(&a));
    assert!(!a.overlaps(&c));
    assert_eq!(a.intersect(&b), Some(Range::new(6, 7)));
    assert_eq!(a.intersect(&c), None);
    assert_eq!(a.shift(10), Range::new(13, 17));
    assert_eq!(a.shift(-3), Range::new(0, 4));
    assert_eq!(a.split_on(5), (Range::new(3, 4), Range::new(5, 7)));
}

#[test]
fn every_value_has_exactly_one_rule() {
    // total coverage on a sample stage: each probe value is moved by the
    // delta of the one rule that holds it
    let layer = MapRangeLayer::from_ranges(
        "stage".to_string(),
        vec![MapRange::new(10, 19, 100), MapRange::new(30, 39, -5)],
    );
    let combiner = MapRangeCombiner { name: "one".to_string(), mappers: vec![layer] };
    let probes: Vec<(usize, usize)> =
        vec![(0, 0), (9, 9), (10, 110), (19, 119), (20, 20), (29, 29), (30, 25), (39, 34), (40, 40)];
    for (v, expect) in probes {
        let out = combiner.evaluate_range(&Range::new(v, v), 0);
        assert_eq!(out.len(), 1);
        assert_eq!(out[0], Range::new(expect, expect));
    }
}

#[test]
fn empty_stage_is_identity() {
    let layer = MapRangeLayer::from_ranges("empty".to_string(), vec![]);
    let input = Range::new(17, 9000);
    let out = layer.evaluate_range(&input);
    assert_eq!(out, vec![input]);
}

#[test]
fn stage_split_conserves_length() {
    let layer = MapRangeLayer::from_ranges(
        "stage".to_string(),
        vec![MapRange::new(10, 19, 100), MapRange::new(30, 39, -5)],
    );
    let input = Range::new(5, 45);
    let out = layer.evaluate_range(&input);
    let total: usize = out.iter().map(|r| r.end - r.start + 1).sum();
    assert_eq!(total, input.end - input.start + 1);
}

#[test]
fn empty_pipeline_returns_input() {
    let combiner = MapRangeCombiner { name: "none".to_string(), mappers: vec![] };
    let input = Range::new(4, 9);
    assert_eq!(combiner.evaluate_range(&input, 0), vec![input]);
}

#[test]
fn point_matches_range_evaluation() {
    let combiner = MapRangeCombiner {
        name: "two".to_string(),
        mappers: vec![
            MapRangeLayer::from_ranges(
                "a".to_string(),
                vec![MapRange::new(1, 5, 5), MapRange::new(6, 10, -4)],
            ),
            MapRangeLayer::from_ranges(
                "b".to_string(),
                vec![MapRange::new(1, 3, 7), MapRange::new(4, 6, -3)],
            ),
        ],
    };
    for v in 0..12usize {
        let point = combiner.evaluate_range(&Range::new(v, v), 0);
        assert_eq!(point.len(), 1);
        let whole = find_min_location_for_seed_range(vec![Range::new(v, v)], &combiner);
        assert_eq!(point[0].start, whole);
    }
}

#[test]
fn boundary_straddle_splits_in_two() {
    let rule = MapRange::new(50, 97, 2);
    let input = Range::new(48, 52);
    let (outs, rem) = rule.evaluate_range(&input);
    assert_eq!(outs, vec![Range::new(48, 49), Range::new(52, 54)]);
    assert_eq!(rem, None);
    let total: usize = outs.iter().map(|r| r.end - r.start + 1).sum();
    assert_eq!(total, input.end - input.start + 1);
}

#[test]
fn rule_line_parses() {
    assert_eq!(parse_range_mapper("50 98 2"), Some(MapRange::new(98, 99, -48)));
    assert_eq!(parse_range_mapper("52 50 48 trailing"), Some(MapRange::new(50, 97, 2)));
    assert_eq!(parse_range_mapper("52 50"), None);
    assert_eq!(parse_range_mapper("52 x 48"), None);
    assert_eq!(parse_range_mapper("52 50 0"), None);
}

#[test]
fn seeds_line_parses() {
    assert_eq!(parse_seeds("seeds: 79 14 55 13"), Some(vec![79, 14, 55, 13]));
    assert_eq!(parse_seeds("seeds: "), None);
    assert_eq!(parse_seeds("seeds:79"), None);
    assert_eq!(parse_seeds("seeds: 79  14"), None);
}

#[test]
fn solver_runs_the_whole_input() {
    let lines = vec![
        "seeds: 79 14 55 13".to_string(),
        "".to_string(),
        "seed-to-soil map:".to_string(),
        "50 98 2".to_string(),
        "52 50 48".to_string(),
        "".to_string(),
        "soil-to-fertilizer map:".to_string(),
        "0 15 37".to_string(),
        "37 52 2".to_string(),
        "39 0 15".to_string(),
    ];
    let solver = Day5Solver {};
    assert_eq!(solver.solve_part_1(lines.clone()), "52");
    assert_eq!(solver.solve_part_2(lines), "57");
}
