use puzzles::engine::{part1, part2};

const PART1: &str = r#"
467..114..
...*......
..35..633.
......#...
617*......
.....+.58.
..592.....
......755.
...$.*....
.664.598.."#;

#[test]
fn day03_part1() {
    assert_eq!(part1(PART1), Some(4361));
}

#[test]
fn day03_part2() {
    assert_eq!(part2(PART1), Some(467835));
}
