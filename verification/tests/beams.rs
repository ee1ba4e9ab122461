use puzzles::beams::{part1, part2};

const DATA1: &str = r#"
.|...\....
|.-.\.....
.....|-...
........|.
..........
.........\
..../.\\..
.-.-/..|..
.|....-|.\
..//.|...."#;

#[test]
fn day16_part1() {
    assert_eq!(part1(DATA1), Some(46));
}

#[test]
fn day16_part2() {
    assert_eq!(part2(DATA1), Some(51));
}
