use puzzles::patterns::{part1, part2};

const DATA1: &str = r#"
#.##..##.
..#.##.#.
##......#
##......#
..#.##.#.
..##..##.
#.#.##.#.

#...##..#
#....#..#
..##..###
#####.##.
#####.##.
..##..###
#....#..#"#;

#[test]
fn day13_part1() {
    assert_eq!(part1(DATA1), Some(405));
}

#[test]
fn day13_part2() {
    assert_eq!(part2(DATA1), Some(400));
}
