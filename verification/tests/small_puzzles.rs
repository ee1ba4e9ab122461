use puzzles::{calibration, cubes, galaxies, history, lenses, races, scratchcards};

#[test]
fn calibration_reads_first_and_last_digit() {
    assert_eq!(calibration::part1("a1b"), Some(11));
    assert_eq!(calibration::part1("12\n34"), Some(46));
    assert_eq!(calibration::part1(""), Some(0));
    assert_eq!(calibration::part1("abc"), None);
    assert_eq!(calibration::part1("12\nabc"), None);
    assert_eq!(calibration::part1("one2"), Some(22));
}

#[test]
fn calibration_reads_words_that_overlap() {
    assert_eq!(calibration::part2("oneight"), Some(18));
    assert_eq!(calibration::part2("one2"), Some(12));
    assert_eq!(calibration::part2("xtwonex"), Some(21));
    assert_eq!(calibration::part2("nin"), None);
    assert_eq!(calibration::calibration_value(b"7", true), Some(77));
    assert_eq!(calibration::calibration_value(b"zero", true), None);
}

#[test]
fn cubes_are_counted_by_colour() {
    assert_eq!(cubes::parse_set(b"3 blue, 4 red, 2 blue").map(|s| (s.red, s.green, s.blue)), Some((4, 0, 5)));
    assert_eq!(cubes::parse_set(b"3 blue,4 red"), None);
    assert_eq!(cubes::parse_set(b"3 pink"), None);
    assert_eq!(cubes::parse_set(b"blue 3"), None);
    assert_eq!(cubes::parse_set(b""), None);
    assert_eq!(cubes::part1("Game 7: 12 red, 13 green, 14 blue"), Some(7));
    assert_eq!(cubes::part1("Game 7: 13 red"), Some(0));
    assert_eq!(cubes::part2("Game 7: 2 red, 3 green; 5 blue, 1 red"), Some(30));
    assert_eq!(cubes::part2("Game 7: 2 red"), Some(0));
}

#[test]
fn a_record_of_cubes_that_cannot_be_read_has_no_answer() {
    assert_eq!(cubes::part1("Game x: 1 red"), None);
    assert_eq!(cubes::part1("game 1: 1 red"), None);
    assert_eq!(cubes::part1("Game 1 1 red"), None);
    assert_eq!(cubes::part1("Game 1: 1 red; rubbish"), None);
    assert_eq!(cubes::part1("Game 1: 20 red; rubbish"), Some(0));
    assert_eq!(cubes::part2("Game 1: 20 red; rubbish"), None);
}

#[test]
fn scratchcards_count_their_winners_once() {
    let card = scratchcards::Card::from_line(b"Card 1:  1  1  2 |  1  2  2  3").unwrap();
    assert_eq!(card.num_winners(), 2);
    assert_eq!(scratchcards::part1("Card 1:  1  1  2 |  1  2  2  3"), Some(2));
    assert_eq!(scratchcards::part1("Card 1:  1 |  2"), Some(0));
    assert_eq!(scratchcards::part1("Card 1:  1  2  3 |  1  2  3"), Some(4));
    assert_eq!(scratchcards::part2("c:  1 |  2\nc:  1 |  2"), Some(2));
    assert_eq!(scratchcards::part2("c:  1 |  1\nc:  1 |  2"), Some(3));
}

#[test]
fn a_scratchcard_that_cannot_be_read_has_no_answer() {
    assert_eq!(scratchcards::part1("Card 1  1 |  1"), None);
    assert_eq!(scratchcards::part1("Card 1:  1  1"), None);
    assert_eq!(scratchcards::part1("Card 1:  x |  1"), None);
    assert_eq!(scratchcards::part1("Card 1: 1 2 |  1"), None);
    assert_eq!(scratchcards::part2("c:  1 |  1"), None);
}

#[test]
fn races_count_the_ways_to_win() {
    assert_eq!(races::count_wins(7, 9), Some(4));
    assert_eq!(races::count_wins(30, 200), Some(9));
    assert_eq!(races::count_wins(0, 0), None);
    assert_eq!(races::count_wins(1, 0), Some(0));
    assert_eq!(races::count_wins(2, 0), Some(0));
    assert_eq!(races::count_wins(3, 0), Some(1));
    assert_eq!(races::count_wins(usize::MAX, 0), None);
    assert_eq!(races::part1("Time: 7\nDistance: 9"), Some(4));
    assert_eq!(races::part1("Time: 7 15\nDistance: 9"), Some(4));
    assert_eq!(races::part2("Time: 7 1\nDistance: 9 9"), Some(68));
}

#[test]
fn a_sheet_of_races_that_cannot_be_read_has_no_answer() {
    assert_eq!(races::part1("Times: 7\nDistance: 9"), None);
    assert_eq!(races::part1("Time: 7"), None);
    assert_eq!(races::part1("Time: 7\nDistance: 9\nmore"), None);
    assert_eq!(races::part1("Time: x\nDistance: 9"), None);
    assert_eq!(races::part2("Time: 7\nDistance: 9\nmore"), Some(4));
    assert_eq!(races::part2("Time:\nDistance: 9"), None);
}

#[test]
fn histories_are_continued_at_both_ends() {
    assert_eq!(history::extrapolate_last(&[0, 3, 6, 9, 12, 15]), Some(18));
    assert_eq!(history::extrapolate_first(&[10, 13, 16, 21, 30, 45]), Some(5));
    assert_eq!(history::extrapolate_last(&[]), Some(0));
    assert_eq!(history::extrapolate_last(&[0, 0]), Some(0));
    assert_eq!(history::extrapolate_last(&[5]), Some(5));
    assert_eq!(history::extrapolate_first(&[5]), Some(5));
    assert_eq!(history::extrapolate_last(&[-3, -1]), Some(1));
    assert_eq!(history::extrapolate_last(&[i64::MAX, i64::MIN]), None);
    assert_eq!(history::extrapolate_last(&[0, i64::MAX]), None);
    assert_eq!(history::part1("1 2 3\n-1 -2"), Some(1));
    assert_eq!(history::part2("1 2 3\n-1 -2"), Some(0));
    assert_eq!(history::part1(""), Some(0));
}

#[test]
fn a_history_that_cannot_be_read_has_no_answer() {
    assert_eq!(history::part1("1 2 x"), None);
    assert_eq!(history::part1("1  2"), None);
    assert_eq!(history::part1("1 2\n\n3"), None);
    assert_eq!(history::parse_line(b"1 -2 +3"), Some(vec![1, -2, 3]));
    assert_eq!(history::parse_line(b""), None);
}

#[test]
fn lenses_keep_their_places() {
    assert_eq!(lenses::hash_bytes(b""), 0);
    assert_eq!(lenses::hash_bytes(b"H"), 200);
    assert_eq!(lenses::part1(""), Some(0));
    assert_eq!(lenses::part1("H,H"), Some(400));
    assert_eq!(lenses::part2("rn=1"), Some(1));
    assert_eq!(lenses::part2("rn=1,rn=5"), Some(5));
    assert_eq!(lenses::part2("rn=1,cm=2,rn-"), Some(2));
    assert_eq!(lenses::part2("rn=1,cm=2,rn-,rn=3"), Some(8));
    assert_eq!(lenses::part2("rn=1,rn-"), Some(0));
    assert_eq!(lenses::part2("xx-"), Some(0));
    assert_eq!(lenses::part2("rn-5"), Some(5));
}

#[test]
fn a_step_that_cannot_be_read_has_no_answer() {
    assert_eq!(lenses::part2(""), None);
    assert_eq!(lenses::part2("rn"), None);
    assert_eq!(lenses::part2("rn=x"), None);
    assert_eq!(lenses::part2("rn=1,,cm=2"), None);
    assert_eq!(lenses::part2("rn=99999999999999999999999"), None);
}

#[test]
fn galaxies_lie_apart_by_rows_and_columns() {
    assert_eq!(galaxies::part1("#"), Some(0));
    assert_eq!(galaxies::part1("."), Some(0));
    assert_eq!(galaxies::part1("#.#"), Some(3));
    assert_eq!(galaxies::part1("#\n.\n#"), Some(3));
    assert_eq!(galaxies::expand_and_sum_distances("#.#", 10), Some(11));
    assert_eq!(galaxies::expand_and_sum_distances("#.#", 0), Some(1));
    assert_eq!(galaxies::expand_and_sum_distances("#\n.\n#", 0), Some(2));
    assert_eq!(galaxies::expand_and_sum_distances("#..\n..#", 1), Some(3));
    assert_eq!(galaxies::part2("#.#"), Some(1_000_001));
}

#[test]
fn a_sky_that_cannot_be_read_has_no_answer() {
    assert_eq!(galaxies::part1(""), None);
    assert_eq!(galaxies::part1("#.x"), None);
    assert_eq!(galaxies::part1("#.\n#"), None);
    assert_eq!(galaxies::expand_and_sum_distances("#.#", usize::MAX - 2), Some(usize::MAX - 1));
    assert_eq!(galaxies::expand_and_sum_distances("#.#", usize::MAX - 1), None);
    assert_eq!(galaxies::expand_and_sum_distances("#.#\n#.#", usize::MAX - 2), None);
}

#[test]
fn the_universe_expands_where_it_is_empty() {
    let mut universe = galaxies::Universe::from_input(b"#.#\n...\n..#").unwrap();
    let at = |x, y| galaxies::Pos { x, y };
    assert_eq!(universe.iter_galaxies(), vec![at(0, 0), at(2, 0), at(2, 2)]);
    assert!(universe.expand(10));
    assert_eq!(universe.iter_galaxies(), vec![at(0, 0), at(11, 0), at(11, 11)]);
    assert!(universe.expand(0));
    assert_eq!(universe.iter_galaxies(), vec![at(0, 0), at(1, 0), at(1, 2)]);
    assert!(!universe.expand(usize::MAX));
    assert_eq!(universe.iter_galaxies(), vec![at(0, 0), at(1, 0), at(1, 2)]);
    assert_eq!(at(1, 5).ortho_distance(&at(4, 3)), Some(5));
    assert_eq!(at(0, 0).ortho_distance(&at(usize::MAX, 1)), None);
    assert!(galaxies::Universe::from_input(b"#.?").is_none());
}
