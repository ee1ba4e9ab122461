use puzzles::platform::{part1, part2};

const DATA1: &str = r#"
O....#....
O.OO#....#
.....##...
OO.#O....O
.O.....O#.
O.#..O.#.#
..O..#O..O
.......O..
#....###..
#OO..#...."#;

#[test]
fn day14_part1() {
    assert_eq!(part1(DATA1), Some(136));
}

#[test]
fn day14_part2() {
    assert_eq!(part2(DATA1), Some(64));
}
