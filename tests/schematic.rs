use aoc2023::schematic::{
    gear_ratio_sum, get_border_points, get_gears, get_parts, is_part_number, update_gear_parts,
};

const SAMPLE: [&str; 10] = [
    "467..114..",
    "...*......",
    "..35..633.",
    "......#...",
    "617*......",
    ".....+.58.",
    "..592.....",
    "......755.",
    "...$.*....",
    ".664.598..",
];

fn grid() -> Vec<Vec<char>> {
    SAMPLE.iter().map(|l| l.chars().collect()).collect()
}

#[test]
fn border_points_in_the_middle_and_corners() {
    let mut mid = get_border_points(&(1, 1), &2, &2);
    mid.sort();
    assert_eq!(mid, vec![(0, 0), (0, 1), (0, 2), (1, 0), (1, 2), (2, 0), (2, 1), (2, 2)]);
    let mut corner = get_border_points(&(0, 0), &2, &2);
    corner.sort();
    assert_eq!(corner, vec![(0, 1), (1, 0), (1, 1)]);
    let mut edge = get_border_points(&(2, 1), &2, &2);
    edge.sort();
    assert_eq!(edge, vec![(1, 0), (1, 1), (1, 2), (2, 0), (2, 2)]);
    assert!(get_border_points(&(0, 0), &0, &0).is_empty());
}

#[test]
fn digits_next_to_symbols() {
    let g = grid();
    assert_eq!(is_part_number(&g, &(0, 2)), (true, true));
    assert_eq!(is_part_number(&g, &(0, 0)), (true, false));
    assert_eq!(is_part_number(&g, &(0, 3)), (false, false));
    assert_eq!(is_part_number(&g, &(1, 3)), (false, false));
}

#[test]
fn sample_part_numbers() {
    let parts = get_parts(&grid());
    assert_eq!(parts, vec!["467", "35", "633", "617", "592", "755", "664", "598"]);
    let sum: i64 = parts.iter().map(|p| p.parse::<i64>().unwrap()).sum();
    assert_eq!(sum, 4361);
}

#[test]
fn sample_gears() {
    let g = grid();
    let mut gears = get_gears(&g);
    let pos: Vec<(i32, i32)> = gears.iter().map(|x| x.pos).collect();
    assert_eq!(pos, vec![(1, 3), (4, 3), (8, 5)]);
    update_gear_parts(&g, &mut gears);
    let mut first = gears[0].parts.clone();
    first.sort();
    assert_eq!(first, vec!["35", "467"]);
    assert_eq!(gears[1].parts, vec!["617"]);
    assert_eq!(gear_ratio_sum(&gears), Some(467835));
}

#[test]
fn equal_numbers_count_once_for_a_gear() {
    let g: Vec<Vec<char>> = ["12*12"].iter().map(|l| l.chars().collect()).collect();
    let mut gears = get_gears(&g);
    update_gear_parts(&g, &mut gears);
    // The second number is still open at the end of the grid.
    assert_eq!(gears[0].parts, vec!["12"]);
    let g: Vec<Vec<char>> = ["12*12."].iter().map(|l| l.chars().collect()).collect();
    let mut gears = get_gears(&g);
    update_gear_parts(&g, &mut gears);
    assert_eq!(gears[0].parts, vec!["12"]);
    assert_eq!(gear_ratio_sum(&gears), Some(0));
}
