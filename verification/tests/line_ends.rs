use puzzles::pipes::{part1, part2, parse};
use puzzles::text::{content_of, is_rectangular, plain_bytes};
use puzzles::words::lines_of;
use puzzles::{almanac, beams, calibration, engine, galaxies, network, patterns, platform};

#[test]
fn a_carriage_return_before_a_line_feed_is_left_out() {
    assert_eq!(plain_bytes(b"ab\r\ncd\r\n"), b"ab\ncd\n".to_vec());
    assert_eq!(plain_bytes(b"ab\ncd"), b"ab\ncd".to_vec());
    assert_eq!(plain_bytes(b"a\rb\r\r\nc\r"), b"a\rb\r\nc\r".to_vec());
    assert_eq!(plain_bytes(b"\n\r"), b"\n\r".to_vec());
    assert_eq!(plain_bytes(b""), b"".to_vec());
    assert_eq!(content_of(b"  ab\r\ncd\r\n\r\n"), b"ab\ncd".to_vec());
}

#[test]
fn lines_end_with_or_without_a_carriage_return() {
    assert_eq!(lines_of("ab\r\ncd\r\n"), vec![b"ab".to_vec(), b"cd".to_vec()]);
    assert_eq!(lines_of("ab\ncd"), vec![b"ab".to_vec(), b"cd".to_vec()]);
    assert_eq!(lines_of("a\rb\r\nc"), vec![b"a\rb".to_vec(), b"c".to_vec()]);
    assert_eq!(lines_of("a\r\n\r\nb"), vec![b"a".to_vec(), b"".to_vec(), b"b".to_vec()]);
    assert_eq!(lines_of("\r\n"), Vec::<Vec<u8>>::new());
}

#[test]
fn a_loop_is_read_from_lines_that_end_with_carriage_returns() {
    let unix = "-L|F7\n7S-7|\nL|7||\n-L-J|\nL|-JF";
    let dos = "-L|F7\r\n7S-7|\r\nL|7||\r\n-L-J|\r\nL|-JF\r\n";
    assert!(is_rectangular(dos));
    assert_eq!(part1(dos), Ok(4));
    assert_eq!(part1(dos), part1(unix));
    assert_eq!(part2(dos), part2(unix));
    let a = parse(dos).unwrap();
    let b = parse(unix).unwrap();
    assert_eq!((a.width(), a.height(), a.start()), (b.width(), b.height(), b.start()));
    assert!(!is_rectangular("-L|\r\n7S\r\n"));
}

#[test]
fn the_puzzles_are_read_from_lines_that_end_with_carriage_returns() {
    assert_eq!(calibration::part1("12\r\n34\r\n"), Some(46));
    assert_eq!(engine::part1("12*\r\n...\r\n"), engine::part1("12*\n..."));
    assert_eq!(galaxies::part1("#.\r\n.#"), galaxies::part1("#.\n.#"));
    assert_eq!(patterns::part1("#.\r\n#.\r\n\r\n..\r\n.."), patterns::part1("#.\n#.\n\n..\n.."));
    assert_eq!(platform::part1(".\r\nO\r\n"), Some(2));
    assert_eq!(beams::part1(".|.\r\n...\r\n..."), Some(4));
    assert_eq!(network::part1("L\r\n\r\nAAA = (ZZZ, ZZZ)\r\nZZZ = (ZZZ, ZZZ)\r\n"), Some(1));
    let text = "seeds: 5 3\r\n\r\nseed-to-soil map:\r\n10 5 2\r\n\r\nsoil-to-location map:\r\n0 10 1";
    assert_eq!(almanac::part1(text), Some(0));
}
