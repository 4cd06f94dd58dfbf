use aoc2023::network::{
    build_network, get_steps_between, get_steps_to_end, lcm_all, node_named, parse_node_line,
    steps_to_first_end,
};

const SAMPLE: [&str; 8] = [
    "11A = (11B, XXX)",
    "11B = (XXX, 11Z)",
    "11Z = (11B, XXX)",
    "22A = (22B, XXX)",
    "22B = (22C, 22C)",
    "22C = (22Z, 22Z)",
    "22Z = (22B, 22B)",
    "XXX = (XXX, XXX)",
];

#[test]
fn node_lines() {
    assert_eq!(
        parse_node_line("AAA = (BBB, CCC)"),
        Some(("AAA".to_string(), "BBB".to_string(), "CCC".to_string()))
    );
    assert_eq!(parse_node_line("AAA = BBB, CCC"), None);
    assert_eq!(parse_node_line("AAA (BBB, CCC)"), None);
}

#[test]
fn sample_network_steps() {
    let entries: Vec<_> = SAMPLE.iter().map(|l| parse_node_line(l).unwrap()).collect();
    let net = build_network(&entries).unwrap();
    assert_eq!(net[0].left, 1);
    assert_eq!(net[0].right, 7);
    let instructions = vec!['L', 'R'];
    assert_eq!(steps_to_first_end(&instructions, &net, 0), Some(2));
    assert_eq!(steps_to_first_end(&instructions, &net, 3), Some(3));
    assert_eq!(steps_to_first_end(&instructions, &net, 7), None);
    assert_eq!(get_steps_to_end(&instructions, &net), Some(6));
}

#[test]
fn unknown_successor_is_refused() {
    let entries = vec![("AAA".to_string(), "BBB".to_string(), "AAA".to_string())];
    assert!(build_network(&entries).is_none());
}

#[test]
fn least_common_multiples() {
    assert_eq!(lcm_all(&vec![2, 3]), Some(6));
    assert_eq!(lcm_all(&vec![4, 6, 10]), Some(60));
    assert_eq!(lcm_all(&vec![7]), Some(7));
    assert_eq!(lcm_all(&vec![i64::MAX, 2]), None);
}

fn network_of(lines: &[&str]) -> Vec<aoc2023::network::Node> {
    let entries: Vec<_> = lines.iter().map(|l| parse_node_line(l).unwrap()).collect();
    build_network(&entries).unwrap()
}

#[test]
fn steps_from_aaa_to_zzz() {
    let net = network_of(&[
        "AAA = (BBB, CCC)",
        "BBB = (DDD, EEE)",
        "CCC = (ZZZ, GGG)",
        "DDD = (DDD, DDD)",
        "EEE = (EEE, EEE)",
        "GGG = (GGG, GGG)",
        "ZZZ = (ZZZ, ZZZ)",
    ]);
    let start = node_named(&net, "AAA").unwrap();
    let goal = node_named(&net, "ZZZ").unwrap();
    assert_eq!((start, goal), (0, 6));
    assert_eq!(get_steps_between(&vec!['R', 'L'], &net, start, goal), Some(2));
    assert_eq!(node_named(&net, "QQQ"), None);
}

#[test]
fn steps_repeating_the_instructions() {
    let net = network_of(&["AAA = (BBB, BBB)", "BBB = (AAA, ZZZ)", "ZZZ = (ZZZ, ZZZ)"]);
    assert_eq!(get_steps_between(&vec!['L', 'L', 'R'], &net, 0, 2), Some(6));
    assert_eq!(get_steps_between(&vec!['L'], &net, 0, 2), None);
}
