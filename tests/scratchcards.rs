use aoc2023::scratchcards::{count_matches, parse_card, total_cards};

const SAMPLE: [&str; 6] = [
    "Card 1: 41 48 83 86 17 | 83 86  6 31 17  9 48 53",
    "Card 2: 13 32 20 16 61 | 61 30 68 82 17 32 24 19",
    "Card 3:  1 21 53 59 44 | 69 82 63 72 16 21 14  1",
    "Card 4: 41 92 73 84 69 | 59 84 76 51 58  5 54 83",
    "Card 5: 87 83 26 28 32 | 88 30 70 12 93 22 82 36",
    "Card 6: 31 18 13 56 72 | 74 77 10 23 35 67 36 11",
];

fn sample_matches() -> Vec<usize> {
    SAMPLE
        .iter()
        .map(|l| {
            let (w, h) = parse_card(l).unwrap();
            count_matches(&w, &h)
        })
        .collect()
}

#[test]
fn card_lines() {
    assert_eq!(
        parse_card("Card   3:  1 21 | 69 1"),
        Some((vec![1, 21], vec![69, 1]))
    );
    assert_eq!(parse_card("Card 3: 1 21 69 1"), None);
    assert_eq!(parse_card("Cards 3: 1 | 2"), None);
    assert_eq!(parse_card("Card 3: 1 x | 2"), None);
}

#[test]
fn sample_matches_per_card() {
    assert_eq!(sample_matches(), vec![4, 2, 2, 1, 0, 0]);
}

#[test]
fn repeated_numbers_match_once() {
    assert_eq!(count_matches(&vec![5, 5, 7], &vec![5, 5, 5]), 1);
    assert_eq!(count_matches(&vec![], &vec![1]), 0);
}

#[test]
fn sample_total_cards() {
    assert_eq!(total_cards(&sample_matches()), Some(30));
}

#[test]
fn cards_past_the_end_are_counted() {
    assert_eq!(total_cards(&vec![2]), Some(5));
    assert_eq!(total_cards(&vec![]), Some(0));
}

#[test]
fn too_many_cards() {
    let matches: Vec<usize> = (0..70).map(|i| 70 - i).collect();
    assert_eq!(total_cards(&matches), None);
}
