use puzzles::races::{part1, part2};

const PART1: &str = r#"
Time:      7  15   30
Distance:  9  40  200"#;

#[test]
fn day06_part1() {
    assert_eq!(part1(PART1), Some(288));
}

#[test]
fn day06_part2() {
    assert_eq!(part2(PART1), Some(71503));
}
