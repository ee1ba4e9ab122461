use puzzles::history::{part1, part2};

const DATA: &str = r#"
0 3 6 9 12 15
1 3 6 10 15 21
10 13 16 21 30 45
    "#;

#[test]
fn day09_part1() {
    assert_eq!(part1(DATA), Some(114));
}

#[test]
fn day09_part2() {
    assert_eq!(part2(DATA), Some(2));
}
