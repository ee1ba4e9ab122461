use puzzles::beams::Dir::{D, L, R, U};
use puzzles::pipes::Pos;
use puzzles::{almanac, beams, camel, engine, network, patterns, platform, springs};

fn hand(text: &str, wild: bool) -> camel::Hand {
    camel::Hand::from_input(text.as_bytes(), wild).unwrap()
}

#[test]
fn hands_are_of_seven_kinds() {
    for (cards, kind) in [
        ("AAAAA", 7),
        ("AA8AA", 6),
        ("23332", 5),
        ("TTT98", 4),
        ("23432", 3),
        ("A23A4", 2),
        ("23456", 1),
        ("JJJJJ", 7),
        ("xxxxx", 7),
        ("2xy3z", 4),
    ] {
        assert_eq!(hand(&format!("{cards} 1"), false).score, kind);
    }
}

#[test]
fn jokers_count_as_the_card_of_which_there_is_most() {
    for (cards, kind) in [
        ("JJJJJ", 7),
        ("JJJJ2", 7),
        ("JJJ22", 7),
        ("JJJ23", 6),
        ("JJ222", 7),
        ("JJ223", 6),
        ("JJ234", 4),
        ("J2222", 7),
        ("J2223", 6),
        ("J2233", 5),
        ("J2234", 4),
        ("J2345", 2),
        ("23456", 1),
        ("QQQJA", 6),
    ] {
        assert_eq!(hand(&format!("{cards} 1"), true).score, kind);
    }
}

#[test]
fn hands_rank_by_kind_then_cards_then_bid() {
    let pair = hand("22345 1", false);
    let high = hand("AKQJ9 1", false);
    assert!(high.ranks_below(&pair));
    assert!(!pair.ranks_below(&high));
    assert!(hand("2AAAA 1", false).ranks_below(&hand("33332 1", false)));
    assert!(hand("KTJJT 1", true).ranks_below(&hand("KTTTT 1", true)));
    assert!(hand("23456 1", false).ranks_below(&hand("23456 2", false)));
    assert!(!hand("23456 2", false).ranks_below(&hand("23456 2", false)));
    assert_eq!(camel::part1("23456 5\n23456 5\n23456 5"), Some(30));
    assert_eq!(camel::part1("23456 0"), Some(0));
    assert_eq!(camel::part1(""), Some(0));
}

#[test]
fn a_hand_that_cannot_be_read_has_no_answer() {
    assert_eq!(camel::part1("2345 5"), None);
    assert_eq!(camel::part1("234567 5"), None);
    assert_eq!(camel::part1("23456"), None);
    assert_eq!(camel::part1("23456 x"), None);
}

#[test]
fn part_numbers_stand_next_to_symbols() {
    assert_eq!(engine::part1("12*"), Some(12));
    assert_eq!(engine::part1("12.*"), Some(0));
    assert_eq!(engine::part1("12\n..\n.*"), Some(0));
    assert_eq!(engine::part1("12.\n..+"), Some(12));
    assert_eq!(engine::part1("0*"), Some(0));
    assert_eq!(engine::part1("*007"), Some(7));
    assert_eq!(engine::part1("65535#"), Some(65535));
    assert_eq!(engine::part2("2*3"), Some(6));
    assert_eq!(engine::part2("2*3\n.4."), Some(6));
    assert_eq!(engine::part2("2*."), Some(0));
    assert_eq!(engine::part2("2.3\n.*.\n4.5"), Some(6));
    assert_eq!(engine::part2("234\n.*.\n5.6"), Some(1170));
    assert_eq!(engine::part2("12*0"), Some(0));
}

#[test]
fn a_plan_that_cannot_be_kept_has_no_answer() {
    assert_eq!(engine::part1(""), None);
    assert_eq!(engine::part1("12\n3"), None);
    assert_eq!(engine::part1("65536#"), None);
    assert_eq!(engine::part2("65536"), None);
}

#[test]
fn the_network_is_walked_turn_by_turn() {
    let text = "LR\n\nAAA = (AAA, BBB)\nBBB = (ZZZ, AAA)\nZZZ = (ZZZ, ZZZ)";
    assert_eq!(network::part1(text), Some(3));
    assert_eq!(network::part2(text), Some(3));
    assert_eq!(network::part1("L\n\nAAA = (ZZZ, ZZZ)\nZZZ = (ZZZ, ZZZ)"), Some(1));
    assert_eq!(network::part1("L\n\nAAA = (ZZZ, ZZZ)\nAAA = (AAA, AAA)\nZZZ = (ZZZ, ZZZ)"), None);
    assert_eq!(network::greatest_common_divisor(12, 18), 6);
    assert_eq!(network::greatest_common_divisor(0, 5), 5);
    assert_eq!(network::greatest_common_divisor(0, 0), 0);
    assert_eq!(network::least_common_multiple(&[4, 6, 10]), Some(60));
    assert_eq!(network::least_common_multiple(&[7]), Some(7));
    assert_eq!(network::least_common_multiple(&[]), None);
    assert_eq!(network::least_common_multiple(&[0, 0]), None);
    assert_eq!(network::least_common_multiple(&[usize::MAX, 2]), None);
}

#[test]
fn a_network_without_a_way_out_has_no_answer() {
    assert_eq!(network::part1("L\n\nAAA = (AAA, AAA)\nZZZ = (ZZZ, ZZZ)"), None);
    assert_eq!(network::part1("L\n\nAAA = (BBB, BBB)"), None);
    assert_eq!(network::part1("X\n\nAAA = (ZZZ, ZZZ)\nZZZ = (ZZZ, ZZZ)"), None);
    assert_eq!(network::part1("\n\nAAA = (ZZZ, ZZZ)"), None);
    assert_eq!(network::part1("L\nAAA = (ZZZ, ZZZ)"), None);
    assert_eq!(network::part1("L\n\nAAA = (ZZZ,ZZZ)"), None);
    assert_eq!(network::part1("L\n\nAAA = ZZZ, ZZZ"), None);
    assert_eq!(network::part1("L\n\naaa = (ZZZ, ZZZ)"), None);
    assert_eq!(network::part1("L\n\nAAAA = (ZZZ, ZZZ)"), None);
    assert_eq!(network::part1("L\n\nBBB = (ZZZ, ZZZ)\nZZZ = (ZZZ, ZZZ)"), None);
    assert_eq!(network::part2("L\n\nBBB = (ZZZ, ZZZ)\nZZZ = (ZZZ, ZZZ)"), None);
}

#[test]
fn patterns_mirror_themselves() {
    assert_eq!(patterns::part1("#.\n#.\n.."), Some(100));
    assert_eq!(patterns::part1("##.\n..#"), Some(1));
    assert_eq!(patterns::part1("#..\n.##"), Some(2));
    assert_eq!(patterns::part1("#.\n.#"), Some(2));
    assert_eq!(patterns::part1("#"), Some(1));
    assert_eq!(patterns::part2("#.\n.#"), None);
    assert_eq!(patterns::part2("##\n#."), Some(100));
    assert_eq!(patterns::part2("#.#\n###"), Some(100));
    assert_eq!(patterns::part1("#.\n#.\n..\n\n##.\n..#"), Some(101));
    assert_eq!(patterns::part1("#.\n#\n.."), None);
    assert_eq!(patterns::part1(""), None);
    assert_eq!(patterns::part1("#.\n\n\n#."), None);
}

#[test]
fn springs_are_settled_in_all_ways() {
    assert_eq!(springs::State { springs: b"???.###", counts: &[1, 1, 3] }.count_arrangements(), Some(1));
    assert_eq!(springs::State { springs: b"?###????????", counts: &[3, 2, 1] }.count_arrangements(), Some(10));
    assert_eq!(springs::State { springs: b"", counts: &[] }.count_arrangements(), Some(1));
    assert_eq!(springs::State { springs: b"", counts: &[1] }.count_arrangements(), Some(0));
    assert_eq!(springs::State { springs: b"#", counts: &[] }.count_arrangements(), Some(0));
    assert_eq!(springs::State { springs: b"?", counts: &[] }.count_arrangements(), Some(1));
    assert_eq!(springs::State { springs: b"?", counts: &[1] }.count_arrangements(), Some(1));
    assert_eq!(springs::State { springs: b"??", counts: &[1] }.count_arrangements(), Some(2));
    assert_eq!(springs::State { springs: b"???", counts: &[1, 1] }.count_arrangements(), Some(1));
    assert_eq!(springs::State { springs: b"x.y", counts: &[1, 1] }.count_arrangements(), Some(1));
    assert_eq!(springs::State { springs: b"?", counts: &[0] }.count_arrangements(), None);
    assert_eq!(springs::part1("# 1\n?? 1"), Some(3));
    assert_eq!(springs::part2("# 1"), Some(1));
    assert_eq!(springs::part2("?? 1"), Some(252));
    assert_eq!(springs::part1("#"), None);
    assert_eq!(springs::part1("# x"), None);
    assert_eq!(springs::part1("# 1,"), None);
}

#[test]
fn the_almanac_leads_seeds_to_locations() {
    let text = "seeds: 5 3\n\nseed-to-soil map:\n10 5 2\n\nsoil-to-location map:\n0 10 1";
    assert_eq!(almanac::part1(text), Some(0));
    assert_eq!(almanac::part2(text), Some(0));
    let one = "seeds: 7 2\n\nseed-to-location map:\n100 0 5\n1 8 1";
    assert_eq!(almanac::part1(one), Some(7));
    assert_eq!(almanac::part2(one), Some(1));
    assert_eq!(almanac::part2("seeds: 7 0\n\nseed-to-location map:\n100 0 5"), Some(usize::MAX));
    let map = almanac::Mapping::from_block(b"a-to-b map:\n50 98 2\n52 50 48").unwrap();
    assert_eq!(map.map_entry(98), (50, 2));
    assert_eq!(map.map_entry(99), (51, 1));
    assert_eq!(map.map_entry(50), (52, 48));
    assert_eq!(map.map_entry(97), (99, 1));
    assert_eq!(map.map_entry(10), (10, 40));
    assert_eq!(map.map_entry(100), (100, usize::MAX - 100));
}

#[test]
fn an_almanac_that_cannot_be_read_has_no_answer() {
    assert_eq!(almanac::part1("seeds: 1"), None);
    assert_eq!(almanac::part1("seeds: 1\nseed-to-location map:\n1 2 3"), None);
    assert_eq!(almanac::part1("seed: 1\n\nseed-to-location map:\n1 2 3"), None);
    assert_eq!(almanac::part1("seeds: x\n\nseed-to-location map:\n1 2 3"), None);
    assert_eq!(almanac::part1("seeds: 1\n\nseed-to-location map:\n1 2"), None);
    assert_eq!(almanac::part1("seeds: 1\n\nseed-to-location map:\n1 2 0"), None);
    assert_eq!(almanac::part1("seeds: 1\n\nseed-to-location map:\n1 2 3\n9 4 3"), None);
    assert_eq!(almanac::part1("seeds: 1\n\nseed-to-location map:"), None);
    assert_eq!(almanac::part1("seeds: 1\n\nseed-to-soil map:\n1 2 3"), None);
    assert_eq!(almanac::part1("seeds: 1\n\nseed-to-seed map:\n1 2 3"), None);
    assert_eq!(almanac::part1("seeds: 1\n\nsoil-to-location map:\n1 2 3"), None);
    assert_eq!(
        almanac::part1("seeds: 1\n\nseed-to-location map:\n1 2 3\n\nseed-to-location map:\n1 2 3"),
        None
    );
    assert_eq!(almanac::part1("seeds: 1\n\nseed-to-location maps:\n1 2 3"), None);
    assert_eq!(almanac::part2("seeds: 1\n\nseed-to-location map:\n1 2 3"), None);
    assert_eq!(almanac::part2("seeds: 18446744073709551615 1\n\nseed-to-location map:\n1 2 3"), None);
}

#[test]
fn round_rocks_roll_until_they_are_stopped() {
    assert_eq!(platform::roll_row_of_tiles(&b"..O#.O.O".to_vec()), b"O..#OO..".to_vec());
    assert_eq!(platform::roll_row_of_tiles(&b"".to_vec()), b"".to_vec());
    assert_eq!(platform::roll_row_of_tiles(&b"#O#".to_vec()), b"#O#".to_vec());
    assert_eq!(platform::roll_row_of_tiles(&b"...".to_vec()), b"...".to_vec());
    assert_eq!(platform::part1("."), Some(0));
    assert_eq!(platform::part1(".\nO"), Some(2));
    assert_eq!(platform::part1("#\nO"), Some(1));
    assert_eq!(platform::part2(".\nO"), Some(1));
    assert_eq!(platform::part2("..\n.O"), Some(1));
    assert_eq!(platform::part1("x"), None);
    assert_eq!(platform::part1(""), None);
    assert_eq!(platform::part1("O.\nO"), None);
}

#[test]
fn the_platform_is_tilted_to_each_side() {
    let rows = ["O.#", ".O.", "..O"];
    let text = rows.join("\n");
    let read = |p: &platform::Platform| -> Vec<String> {
        (0..3)
            .map(|y| (0..3).map(|x| char::from(p.cols[x][y])).collect())
            .collect()
    };
    let mut p = platform::Platform::from_input(text.as_bytes()).unwrap();
    assert_eq!(read(&p), rows);
    p.tilt_north();
    assert_eq!(read(&p), ["OO#", "..O", "..."]);
    p.tilt_west();
    assert_eq!(read(&p), ["OO#", "O..", "..."]);
    p.tilt_south();
    assert_eq!(read(&p), ["..#", "O..", "OO."]);
    p.tilt_east();
    assert_eq!(read(&p), ["..#", "..O", ".OO"]);
    assert_eq!(p.calc_north_load(), Some(4));
    let mut q = platform::Platform::from_input(text.as_bytes()).unwrap();
    q.spin();
    assert!(p.same(&q));
    assert!(!p.same(&platform::Platform::from_input(text.as_bytes()).unwrap()));
    assert!(p.copy().same(&p));
}

#[test]
fn the_beam_lights_the_tiles_it_passes() {
    assert_eq!(beams::part1("..."), Some(3));
    assert_eq!(beams::part1(".|.\n...\n..."), Some(4));
    assert_eq!(beams::part1("\\..\n...\n..."), Some(3));
    assert_eq!(beams::part1("/.."), Some(1));
    assert_eq!(beams::part1(".-."), Some(3));
    assert_eq!(beams::part1("|-\n\\/"), Some(4));
    assert_eq!(beams::part2("..\n.."), Some(2));
    assert_eq!(beams::part2("|-\n\\/"), Some(4));
    assert_eq!(beams::part1(""), None);
    assert_eq!(beams::part1(".x."), None);
    assert_eq!(beams::part1("..\n."), None);
    let cave = beams::Cave::from_input(b".-.").unwrap();
    assert_eq!(cave.trace_beam(Pos { x: 1, y: 0 }, D), 3);
    assert_eq!(cave.trace_beam(Pos { x: 5, y: 0 }, L), 0);
    assert_eq!(cave.trace_beam(Pos { x: 2, y: 0 }, L), 3);
}

#[test]
fn directions_turn_at_mirrors() {
    for (from, swapped, negated, both) in [(L, U, R, D), (R, D, L, U), (U, L, D, R), (D, R, U, L)] {
        let mut d = from;
        d.swap();
        assert_eq!(d, swapped);
        let mut d = from;
        d.neg();
        assert_eq!(d, negated);
        let mut d = from;
        d.neg_swap();
        assert_eq!(d, both);
    }
    assert_eq!([L.as_flags(), R.as_flags(), U.as_flags(), D.as_flags()], [0, 1, 2, 3]);
}

#[test]
fn the_ranges_of_a_map_are_kept_by_their_sources() {
    let text = "seeds: 79\n\nseed-to-soil map:\n50 98 2\n52 50 48\n\nsoil-to-location map:\n1 7 1\n2 3 1\n3 7 2\n4 5 1";
    let read = almanac::Almanac::from_input(text).unwrap();
    assert_eq!(read.seeds, vec![79]);
    let ranges = |m: &almanac::Mapping| -> Vec<(usize, usize, usize)> {
        m.entries.iter().map(|e| (e.dst_start, e.src_start, e.len)).collect()
    };
    assert_eq!(read.maps.len(), 2);
    assert_eq!(read.maps[0].from, b"seed".to_vec());
    assert_eq!(read.maps[0].to, b"soil".to_vec());
    assert_eq!(ranges(&read.maps[0]), vec![(52, 50, 48), (50, 98, 2)]);
    assert_eq!(ranges(&read.maps[1]), vec![(2, 3, 1), (4, 5, 1), (1, 7, 1), (3, 7, 2)]);
    let mut map = almanac::Mapping::from_input(b"a-to-b map:").unwrap();
    map.insert(almanac::MapEntry { dst_start: 0, src_start: 9, len: 1 });
    map.insert(almanac::MapEntry { dst_start: 1, src_start: 4, len: 1 });
    map.insert(almanac::MapEntry { dst_start: 2, src_start: 6, len: 1 });
    assert_eq!(ranges(&map), vec![(1, 4, 1), (2, 6, 1), (0, 9, 1)]);
}

#[test]
fn an_almanac_with_ranges_that_are_not_sound_is_read() {
    let over = "seeds: 1\n\nseed-to-location map:\n1 2 3\n9 4 3";
    let read = almanac::Almanac::from_input(over).unwrap();
    assert_eq!(read.maps[0].entries.len(), 2);
    assert_eq!(almanac::part1(over), None);
    let empty = "seeds: 1\n\nseed-to-location map:\n1 2 0";
    assert!(almanac::Almanac::from_input(empty).is_some());
    assert_eq!(almanac::part1(empty), None);
    let aside = "seeds: 1\n\nseed-to-location map:\n5 1 1\n\nsoil-to-water map:\n1 2 3\n9 4 3";
    assert_eq!(almanac::part1(aside), Some(5));
}

#[test]
fn the_ways_are_counted_where_the_count_fits() {
    let springs = vec![b'?'; 200];
    let mut counts = vec![200usize];
    counts.extend(vec![1usize; 30]);
    let state = springs::State { springs: &springs, counts: &counts };
    assert_eq!(state.count_arrangements(), Some(0));
    let ones = vec![1usize; 30];
    let state = springs::State { springs: &springs, counts: &ones };
    assert_eq!(state.count_arrangements(), None);
    let mut counts = vec![139usize];
    counts.extend(vec![1usize; 30]);
    let state = springs::State { springs: &springs, counts: &counts };
    assert_eq!(state.count_arrangements(), Some(32));
    let state = springs::State { springs: b"???", counts: &[1, 0] };
    assert_eq!(state.count_arrangements(), None);
}

#[test]
fn a_node_named_anew_takes_the_place_of_the_first() {
    let mut net = network::Network::new();
    assert!(net.add(b"AAA = (BBB, CCC)"));
    assert!(net.add(b"BBB = (AAA, AAA)"));
    assert!(net.add(b"AAA = (ZZZ, BBB)"));
    assert!(!net.add(b"AAA = (ZZZ BBB)"));
    assert_eq!(net.entries.len(), 2);
    assert_eq!(net.entries[0].name, b"AAA".to_vec());
    assert_eq!(net.entries[0].left, b"ZZZ".to_vec());
    assert_eq!(net.entries[0].right, b"BBB".to_vec());
    assert_eq!(net.entries[1].name, b"BBB".to_vec());
    assert_eq!(net.find(b"AAA"), Some(0));
    let text = "L\n\nAAA = (AAA, AAA)\nAAA = (ZZZ, ZZZ)\nZZZ = (ZZZ, ZZZ)";
    assert_eq!(network::part1(text), Some(1));
    assert_eq!(network::part2(text), Some(1));
}

#[test]
fn a_beam_far_outside_the_cave_lights_nothing() {
    let cave = beams::Cave::from_input(b".-.").unwrap();
    assert_eq!(cave.trace_beam(Pos { x: isize::MAX, y: 0 }, R), 0);
    assert_eq!(cave.trace_beam(Pos { x: isize::MIN, y: isize::MIN }, U), 0);
    assert_eq!(cave.trace_beam(Pos { x: 0, y: isize::MAX }, D), 0);
}
