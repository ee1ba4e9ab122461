use puzzles::springs::{part1, part2};

const DATA1: &str = r#"
???.### 1,1,3
.??..??...?##. 1,1,3
?#?#?#?#?#?#?#? 1,3,1,6
????.#...#... 4,1,1
????.######..#####. 1,6,5
?###???????? 3,2,1"#;

#[test]
fn day12_part1() {
    assert_eq!(part1(DATA1), Some(21));
}

#[test]
fn day12_part2() {
    assert_eq!(part2(DATA1), Some(525152));
}
