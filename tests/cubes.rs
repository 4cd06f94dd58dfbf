use aoc2023::cubes::{
    checked_game_power, colors_are_known, get_game_power, is_game_possible, parse_game,
};

fn config() -> Vec<(String, i32)> {
    vec![("red".to_string(), 12), ("green".to_string(), 13), ("blue".to_string(), 14)]
}

const SAMPLE: [&str; 5] = [
    "Game 1: 3 blue, 4 red; 1 red, 2 green, 6 blue; 2 green",
    "Game 2: 1 blue, 2 green; 3 green, 4 blue, 1 red; 1 green, 1 blue",
    "Game 3: 8 green, 6 blue, 20 red; 5 blue, 4 red, 13 green; 5 green, 1 red",
    "Game 4: 1 green, 3 red, 6 blue; 3 green, 6 red; 3 green, 15 blue, 14 red",
    "Game 5: 6 red, 1 blue, 3 green; 2 blue, 1 red, 2 green",
];

#[test]
fn game_line_reads() {
    let (id, g) = parse_game(SAMPLE[0]).unwrap();
    assert_eq!(id, 1);
    assert_eq!(
        g,
        vec![
            vec![(3, "blue".to_string()), (4, "red".to_string())],
            vec![(1, "red".to_string()), (2, "green".to_string()), (6, "blue".to_string())],
            vec![(2, "green".to_string())],
        ]
    );
    assert_eq!(parse_game("Game x: 1 red"), None);
    assert_eq!(parse_game("Play 1: 1 red"), None);
    assert_eq!(parse_game("Game 1: red"), None);
}

#[test]
fn possible_games() {
    let mut sum = 0;
    for line in SAMPLE {
        let (id, g) = parse_game(line).unwrap();
        if is_game_possible(&config(), &g) {
            sum += id;
        }
    }
    assert_eq!(sum, 8);
}

#[test]
fn game_powers() {
    let powers: Vec<i32> =
        SAMPLE.iter().map(|l| get_game_power(&config(), &parse_game(l).unwrap().1)).collect();
    assert_eq!(powers, vec![48, 12, 1560, 630, 36]);
    assert_eq!(powers.iter().sum::<i32>(), 2286);
}

#[test]
fn checked_power_and_known_colours() {
    let (_, g) = parse_game(SAMPLE[2]).unwrap();
    assert_eq!(checked_game_power(&config(), &g), Some(1560));
    assert!(colors_are_known(&config(), &g));
    let (_, g) = parse_game("Game 9: 3 red; 2 green").unwrap();
    assert_eq!(checked_game_power(&config(), &g), None);
    let (_, g) = parse_game("Game 9: 3 pink").unwrap();
    assert!(!colors_are_known(&config(), &g));
    let (_, g) = parse_game("Game 9: 100000 red, 100000 green, 100000 blue").unwrap();
    assert_eq!(checked_game_power(&config(), &g), None);
}
