use aoc2023::races::{get_winning_ways, joined_number, race_numbers};

#[test]
fn winning_ways_of_sample_races() {
    assert_eq!(get_winning_ways(9, 7), 4);
    assert_eq!(get_winning_ways(40, 15), 8);
    assert_eq!(get_winning_ways(200, 30), 9);
    assert_eq!(get_winning_ways(9, 7) * get_winning_ways(40, 15) * get_winning_ways(200, 30), 288);
}

#[test]
fn winning_ways_of_one_long_race() {
    assert_eq!(get_winning_ways(940200, 71530), 71503);
}

#[test]
fn race_that_cannot_be_won() {
    assert_eq!(get_winning_ways(100, 4), 0);
    assert_eq!(get_winning_ways(0, 0), 0);
    assert_eq!(get_winning_ways(3, -5), 0);
}

#[test]
fn race_lines() {
    assert_eq!(race_numbers("Time:      7  15   30"), Some(vec![7, 15, 30]));
    assert_eq!(race_numbers("Distance:  9  40  200"), Some(vec![9, 40, 200]));
    assert_eq!(race_numbers("Time: 7 x"), None);
    assert_eq!(race_numbers(""), None);
    assert_eq!(joined_number("Time:      7  15   30"), Some(71530));
    assert_eq!(joined_number("Distance:  9  40  200"), Some(940200));
    assert_eq!(joined_number("Time:"), None);
}
