use puzzles::pipes::{part1, part2};

const DATA1: &str = r#"
-L|F7
7S-7|
L|7||
-L-J|
L|-JF"#;

const DATA2: &str = r#"
..F7.
.FJ|.
SJ.L7
|F--J
LJ..."#;

const DATA3: &str = r#"
...........
.S-------7.
.|F-----7|.
.||.....||.
.||.....||.
.|L-7.F-J|.
.|..|.|..|.
.L--J.L--J.
..........."#;

const DATA4: &str = r#"
..........
.S------7.
.|F----7|.
.||....||.
.||....||.
.|L-7F-J|.
.|..||..|.
.L--JL--J.
.........."#;

const DATA5: &str = r#"
.F----7F7F7F7F-7....
.|F--7||||||||FJ....
.||.FJ||||||||L7....
FJL7L7LJLJ||LJ.L-7..
L--J.L7...LJS7F-7L7.
....F-J..F7FJ|L7L7L7
....L7.F7||L7|.L7L7|
.....|FJLJ|FJ|F7|.LJ
....FJL-7.||.||||...
....L---J.LJ.LJLJ..."#;

#[test]
fn day10_part1_data1() {
    assert_eq!(part1(DATA1), Ok(4));
}

#[test]
fn day10_part1_data2() {
    assert_eq!(part1(DATA2), Ok(8));
}

#[test]
fn day10_part2_data3() {
    assert_eq!(part2(DATA3), Ok(4));
}

#[test]
fn day10_part2_data4() {
    assert_eq!(part2(DATA4), Ok(4));
}

#[test]
fn day10_part2_data5() {
    assert_eq!(part2(DATA5), Ok(8));
}
