use aoc2023::camel_cards::{
    get_hand_score, get_hand_score_2, get_hands_ranked, normalize_hand, parse_hand_line,
    total_winnings,
};

const SAMPLE: [&str; 5] = ["32T3K 765", "T55J5 684", "KK677 28", "KTJJT 220", "QQQJA 483"];

#[test]
fn hands_normalise() {
    assert_eq!(normalize_hand("32T3K"), "baibl");
    assert_eq!(normalize_hand("AJ2"), "m_a");
    assert_eq!(parse_hand_line("KK677 28"), Some(("lleff".to_string(), 28)));
    assert_eq!(parse_hand_line("KK677"), None);
    assert_eq!(parse_hand_line("KK677 x"), None);
}

#[test]
fn hand_types() {
    assert_eq!(get_hand_score(&"aaaaa".to_string()), 6);
    assert_eq!(get_hand_score(&"aaaab".to_string()), 5);
    assert_eq!(get_hand_score(&"aaabb".to_string()), 4);
    assert_eq!(get_hand_score(&"aaabc".to_string()), 3);
    assert_eq!(get_hand_score(&"aabbc".to_string()), 2);
    assert_eq!(get_hand_score(&"aabcd".to_string()), 1);
    assert_eq!(get_hand_score(&"abcde".to_string()), 0);
}

#[test]
fn hand_types_with_jokers() {
    assert_eq!(get_hand_score_2(&normalize_hand("32T3K")), 1);
    assert_eq!(get_hand_score_2(&normalize_hand("T55J5")), 5);
    assert_eq!(get_hand_score_2(&normalize_hand("KK677")), 2);
    assert_eq!(get_hand_score_2(&normalize_hand("KTJJT")), 5);
    assert_eq!(get_hand_score_2(&normalize_hand("QQQJA")), 5);
    assert_eq!(get_hand_score_2(&normalize_hand("JJJJJ")), 6);
    assert_eq!(get_hand_score_2(&normalize_hand("2345J")), 1);
    assert_eq!(get_hand_score_2(&normalize_hand("2233J")), 4);
}

#[test]
fn sample_ranking_and_winnings() {
    let hands: Vec<(String, i32)> = SAMPLE.iter().map(|l| parse_hand_line(l).unwrap()).collect();
    let ranked = get_hands_ranked(hands);
    let order: Vec<i32> = ranked.iter().map(|r| r.1).collect();
    assert_eq!(order, vec![765, 28, 684, 483, 220]);
    let ranks: Vec<i32> = ranked.iter().map(|r| r.2).collect();
    assert_eq!(ranks, vec![1, 2, 3, 4, 5]);
    assert_eq!(total_winnings(&ranked), Some(5905));
}

#[test]
fn ranking_no_hands() {
    assert!(get_hands_ranked(vec![]).is_empty());
}

#[test]
fn equal_hands_keep_their_order() {
    let hands = vec![
        ("ll".to_string(), 7),
        ("aa".to_string(), 1),
        ("ll".to_string(), 3),
        ("ll".to_string(), 5),
    ];
    let ranked = get_hands_ranked(hands);
    let bids: Vec<i32> = ranked.iter().map(|r| r.1).collect();
    assert_eq!(bids, vec![1, 7, 3, 5]);
}
