use puzzles::galaxies::{expand_and_sum_distances, part1};

const DATA1: &str = r#"
...#......
.......#..
#.........
..........
......#...
.#........
.........#
..........
.......#..
#...#....."#;

#[test]
fn day11_part1() {
    assert_eq!(part1(DATA1), Some(374));
}

#[test]
fn day11_part2_10() {
    assert_eq!(expand_and_sum_distances(DATA1, 10), Some(1030));
}

#[test]
fn day11_part2_100() {
    assert_eq!(expand_and_sum_distances(DATA1, 100), Some(8410));
}
