use puzzles::camel::{part1, part2};

const PART1: &str = r#"
32T3K 765
T55J5 684
KK677 28
KTJJT 220
QQQJA 483"#;

#[test]
fn day07_part1() {
    assert_eq!(part1(PART1), Some(6440));
}

#[test]
fn day07_part2() {
    assert_eq!(part2(PART1), Some(5905));
}

#[test]
fn day07_extra() {
    assert_eq!(part2("JJJJJ 1337\n22223 326"), Some(3000));
}
