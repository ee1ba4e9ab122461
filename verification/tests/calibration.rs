use puzzles::calibration::{part1, part2};

const PART1: &str = r#"
1abc2
pqr3stu8vwx
a1b2c3d4e5f
treb7uchet"#;
const PART2: &str = r#"
two1nine
eightwothree
abcone2threexyz
xtwone3four
4nineeightseven2
zoneight234
7pqrstsixteen"#;

#[test]
fn example() {
    assert_eq!(part1(PART1), Some(142));
    assert_eq!(part2(PART2), Some(281));
}
