use puzzles::lenses::{hash_str, part1, part2};

const DATA1: &str = r#"
rn=1,cm-,qp=3,cm=2,qp-,pc=4,ot=9,ab=5,pc-,pc=6,ot=7
"#;

#[test]
fn day15_part1_hash() {
    assert_eq!(hash_str("HASH"), 52);
    assert_eq!(hash_str("rn=1"), 30);
    assert_eq!(hash_str("cm-"), 253);
}

#[test]
fn day15_part1() {
    assert_eq!(part1(DATA1), Some(1320));
}

#[test]
fn day15_part2() {
    assert_eq!(part2(DATA1), Some(145));
}
