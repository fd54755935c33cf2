use puzzles::day07::{CamelPokerHand, Day7Solver, PokerLevel};

#[test]
fn compare_hands() {
    // Equal hands
    let hand_1 = CamelPokerHand::new("AAAKK".to_string());
    let hand_2 = CamelPokerHand::new("AAAKK".to_string());
    assert_eq!(hand_1 == hand_2, true);

    // Five of a kind is greater than full house
    let hand_1 = CamelPokerHand::new("AAAAA".to_string());
    let hand_2 = CamelPokerHand::new("AAAKK".to_string());
    assert_eq!(hand_1 > hand_2, true);

    // Cards of equal level where the first card breaks the tie in favor of the second hand
    let hand_1 = CamelPokerHand::new("KKAAA".to_string());
    let hand_2 = CamelPokerHand::new("AAKKK".to_string());
    assert_eq!(hand_1 < hand_2, true);
}

#[test]
fn test_sorting() {
    let mut cards = vec![
        CamelPokerHand::new("32T3K".to_string()),
        CamelPokerHand::new("T55J5".to_string()),
        CamelPokerHand::new("KK677".to_string()),
        CamelPokerHand::new("KTJJT".to_string()),
        CamelPokerHand::new("QQQJA".to_string()),
    ];

    cards.sort();
    cards.reverse();

    assert_eq!(
        cards,
        vec![
            CamelPokerHand::new("QQQJA".to_string()),
            CamelPokerHand::new("T55J5".to_string()),
            CamelPokerHand::new("KK677".to_string()),
            CamelPokerHand::new("KTJJT".to_string()),
            CamelPokerHand::new("32T3K".to_string()),
        ]
    );
}

#[test]
fn test_part_1_partial() {
    let lines = vec![
        "32T3K 765".to_string(),
        "T55J5 684".to_string(),
        "KK677 28".to_string(),
        "KTJJT 220".to_string(),
        "QQQJA 483 ".to_string(),
    ];
    let solver = Day7Solver {};
    assert_eq!(solver.solve_part_1(lines), "6440");
}

#[test]
fn test_part_2_partial() {
    let lines = vec![
        "32T3K 765".to_string(),
        "T55J5 684".to_string(),
        "KK677 28".to_string(),
        "KTJJT 220".to_string(),
        "QQQJA 483 ".to_string(),
    ];
    let solver = Day7Solver {};
    assert_eq!(solver.solve_part_2(lines), "5905");
}

#[test]
fn joker_levels() {
    assert_eq!(CamelPokerHand::new_with_jokers("JJJJJ".to_string()).level, PokerLevel::FiveOfAKind);
    assert_eq!(CamelPokerHand::new_with_jokers("JJJA2".to_string()).level, PokerLevel::FourOfAKind);
    assert_eq!(CamelPokerHand::new_with_jokers("J2233".to_string()).level, PokerLevel::FullHouse);
    assert_eq!(CamelPokerHand::new_with_jokers("J2345".to_string()).level, PokerLevel::OnePair);
    assert_eq!(CamelPokerHand::new_simple("J2345".to_string()).level, PokerLevel::HighCard);
    assert_eq!(CamelPokerHand::new_simple("22333".to_string()).level, PokerLevel::FullHouse);
    assert_eq!(CamelPokerHand::new_simple("22334".to_string()).level, PokerLevel::TwoPair);
    assert_eq!(CamelPokerHand::new_simple("23456".to_string()).level, PokerLevel::HighCard);
}
