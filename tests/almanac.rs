use aoc2023::almanac::{
    get_overlapping_range, get_seed_location, get_seed_range_location, lowest_start,
    map_through_stage, Interval, Rule,
};
use aoc2023::almanac_parse::{lowest_location, parse_almanac, parse_rule, parse_seed_ranges};

fn iv(start: i64, end: i64) -> Interval {
    Interval { start, end }
}

fn rule(src: i64, dst: i64, len: i64) -> Rule {
    Rule { source: iv(src, src + len), dest: iv(dst, dst + len) }
}

fn seed_to_soil() -> Vec<Rule> {
    vec![rule(98, 50, 2), rule(50, 52, 48)]
}

fn total_len(ws: &[Interval]) -> i64 {
    ws.iter().map(|w| w.end - w.start).sum()
}

const SAMPLE: &str = "seeds: 79 14 55 13

seed-to-soil map:
50 98 2
52 50 48

soil-to-fertilizer map:
0 15 37
37 52 2
39 0 15

fertilizer-to-water map:
49 53 8
0 11 42
42 0 7
57 7 4

water-to-light map:
88 18 7
18 25 70

light-to-temperature map:
45 77 23
81 45 19
68 64 13

temperature-to-humidity map:
0 69 1
1 0 69

humidity-to-location map:
60 56 37
56 93 4";

fn sample_lines() -> Vec<String> {
    SAMPLE.lines().map(|l| l.to_string()).collect()
}

#[test]
fn interval_inside_one_rule_is_shifted() {
    let out = map_through_stage(&vec![iv(79, 93)], &seed_to_soil());
    assert_eq!(out, vec![iv(81, 95)]);
    assert_eq!(total_len(&out), 14);
}

#[test]
fn interval_outside_every_rule_is_unchanged() {
    let out = map_through_stage(&vec![iv(55, 68)], &vec![rule(98, 50, 2)]);
    assert_eq!(out, vec![iv(55, 68)]);
}

#[test]
fn minimum_start_of_working_set() {
    assert_eq!(lowest_start(&vec![iv(82, 85), iv(60, 63), iv(46, 48)]), Some(46));
}

#[test]
fn minimum_start_ignores_empty_intervals() {
    assert_eq!(lowest_start(&vec![iv(10, 10), iv(60, 63)]), Some(60));
    assert_eq!(lowest_start(&vec![iv(10, 10)]), None);
    assert_eq!(lowest_start(&vec![]), None);
}

#[test]
fn interval_straddling_one_boundary_splits_in_two() {
    // [45, 60) crosses the start of the source [50, 98): [50, 60) moves by +2.
    let out = map_through_stage(&vec![iv(45, 60)], &vec![rule(50, 52, 48)]);
    assert_eq!(out, vec![iv(52, 62), iv(45, 50)]);
    assert_eq!(total_len(&out), 15);
    // [90, 100) crosses the end of [50, 98).
    let out = map_through_stage(&vec![iv(90, 100)], &vec![rule(50, 52, 48)]);
    assert_eq!(out, vec![iv(92, 100), iv(98, 100)]);
}

#[test]
fn interval_covering_a_rule_leaves_two_pieces() {
    let out = map_through_stage(&vec![iv(0, 10)], &vec![rule(3, 100, 4)]);
    assert_eq!(out, vec![iv(100, 104), iv(0, 3), iv(7, 10)]);
    assert_eq!(total_len(&out), 10);
}

#[test]
fn stage_without_rules_keeps_working_set() {
    let ws = vec![iv(1, 5), iv(7, 9), iv(3, 3)];
    assert_eq!(map_through_stage(&ws, &vec![]), ws);
}

#[test]
fn stage_keeps_total_length() {
    let ws = vec![iv(79, 93), iv(55, 68), iv(0, 200)];
    let out = map_through_stage(&ws, &seed_to_soil());
    assert_eq!(total_len(&out), total_len(&ws));
}

#[test]
fn touching_intervals_do_not_overlap() {
    assert_eq!(get_overlapping_range(&iv(0, 5), &iv(5, 10)), None);
    assert_eq!(get_overlapping_range(&iv(5, 10), &iv(0, 5)), None);
    assert_eq!(get_overlapping_range(&iv(0, 6), &iv(5, 10)), Some(iv(5, 6)));
    assert_eq!(get_overlapping_range(&iv(3, 3), &iv(0, 10)), None);
    assert_eq!(get_overlapping_range(&iv(2, 8), &iv(0, 10)), Some(iv(2, 8)));
}

#[test]
fn adjacent_interval_passes_a_touching_rule() {
    let out = map_through_stage(&vec![iv(100, 110)], &seed_to_soil());
    assert_eq!(out, vec![iv(100, 110)]);
    let out = map_through_stage(&vec![iv(40, 50)], &seed_to_soil());
    assert_eq!(out, vec![iv(40, 50)]);
}

#[test]
fn empty_interval_passes_unchanged() {
    let out = map_through_stage(&vec![iv(60, 60)], &seed_to_soil());
    assert_eq!(out, vec![iv(60, 60)]);
}

#[test]
fn single_values_through_one_stage() {
    let maps = vec![seed_to_soil()];
    assert_eq!(get_seed_location(79, &maps), 81);
    assert_eq!(get_seed_location(14, &maps), 14);
    assert_eq!(get_seed_location(98, &maps), 50);
    assert_eq!(get_seed_location(99, &maps), 51);
    assert_eq!(get_seed_location(100, &maps), 100);
}

#[test]
fn sample_almanac_reads() {
    let (seeds, maps) = parse_almanac(&sample_lines()).unwrap();
    assert_eq!(seeds, vec![iv(79, 93), iv(55, 68)]);
    assert_eq!(maps.len(), 7);
    assert_eq!(maps[0], seed_to_soil());
    assert_eq!(maps[6], vec![rule(56, 60, 37), rule(93, 56, 4)]);
}

#[test]
fn sample_almanac_single_seeds() {
    let (_, maps) = parse_almanac(&sample_lines()).unwrap();
    assert_eq!(get_seed_location(79, &maps), 82);
    assert_eq!(get_seed_location(14, &maps), 43);
    assert_eq!(get_seed_location(55, &maps), 86);
    assert_eq!(get_seed_location(13, &maps), 35);
}

#[test]
fn sample_almanac_lowest_location() {
    let (seeds, maps) = parse_almanac(&sample_lines()).unwrap();
    assert_eq!(get_seed_range_location(&seeds[0], &maps), Some(46));
    assert_eq!(lowest_location(&seeds, &maps), Some(46));
}

#[test]
fn pipeline_of_an_empty_seed_range_has_no_minimum() {
    let (_, maps) = parse_almanac(&sample_lines()).unwrap();
    assert_eq!(get_seed_range_location(&iv(10, 10), &maps), None);
}

#[test]
fn seed_line_pairs() {
    assert_eq!(parse_seed_ranges("seeds: 79 14 55 13"), Some(vec![iv(79, 93), iv(55, 68)]));
    assert_eq!(parse_seed_ranges("seeds: 79 14 55"), None);
    assert_eq!(parse_seed_ranges("seeds: 79 -1"), None);
    assert_eq!(parse_seed_ranges("seeds: 79 x"), None);
    assert_eq!(parse_seed_ranges("seeds:"), Some(vec![]));
}

#[test]
fn rule_lines() {
    assert_eq!(parse_rule("50 98 2"), Some(rule(98, 50, 2)));
    assert_eq!(parse_rule("50 98"), None);
    assert_eq!(parse_rule("50 98 -2"), None);
    assert_eq!(parse_rule("50 98 9223372036854775807"), None);
    assert_eq!(parse_rule("a 98 2"), None);
}

#[test]
fn almanac_rule_before_any_header_is_refused() {
    let lines = vec!["seeds: 1 2".to_string(), "50 98 2".to_string()];
    assert_eq!(parse_almanac(&lines), None);
}

#[test]
fn almanac_bad_rule_is_refused() {
    let lines = vec!["seeds: 1 2".to_string(), "a map:".to_string(), "50 98".to_string()];
    assert_eq!(parse_almanac(&lines), None);
}

#[test]
fn sample_pipeline_keeps_total_length() {
    let (seeds, maps) = parse_almanac(&sample_lines()).unwrap();
    let mut ws = seeds.clone();
    for stage in &maps {
        ws = map_through_stage(&ws, stage);
    }
    assert_eq!(total_len(&ws), total_len(&seeds));
    assert_eq!(lowest_start(&ws), Some(46));
}

#[test]
fn range_result_is_lowest_single_value_result() {
    let (seeds, maps) = parse_almanac(&sample_lines()).unwrap();
    for seed in &seeds {
        let brute = (seed.start..seed.end).map(|v| get_seed_location(v, &maps)).min();
        assert_eq!(get_seed_range_location(seed, &maps), brute);
    }
}
