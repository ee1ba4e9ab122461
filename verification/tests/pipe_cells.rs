use puzzles::pipes::{FilledGrid, LoopError, Pipe, Pos};

#[test]
fn symbols_stand_for_their_directions() {
    assert_eq!(Pipe::from_input(b'S'), Ok(Pipe(0b1111)));
    assert_eq!(Pipe::from_input(b'|'), Ok(Pipe(0b0011)));
    assert_eq!(Pipe::from_input(b'-'), Ok(Pipe(0b1100)));
    assert_eq!(Pipe::from_input(b'L'), Ok(Pipe(0b0101)));
    assert_eq!(Pipe::from_input(b'J'), Ok(Pipe(0b1001)));
    assert_eq!(Pipe::from_input(b'7'), Ok(Pipe(0b1010)));
    assert_eq!(Pipe::from_input(b'F'), Ok(Pipe(0b0110)));
    assert_eq!(Pipe::from_input(b'.'), Ok(Pipe(0)));
}

#[test]
fn other_bytes_are_no_symbols() {
    assert_eq!(Pipe::from_input(b'x'), Err(LoopError::Format));
    assert_eq!(Pipe::from_input(b'\r'), Err(LoopError::Format));
    assert_eq!(Pipe::from_input(b' '), Err(LoopError::Format));
}

#[test]
fn a_pipe_knows_where_it_connects() {
    let bend = Pipe(0b0101);
    assert!(bend.can_move_north());
    assert!(bend.can_move_east());
    assert!(!bend.can_move_south());
    assert!(!bend.can_move_west());
    assert!(!Pipe::no_pipe().can_move_north());
    assert!(Pipe::start().can_move_west());
}

#[test]
fn a_pipe_is_passed_from_its_own_directions_only() {
    let bend = Pipe(0b0101);
    assert!(bend.can_pass(Pipe(0b0001)));
    assert!(bend.can_pass(Pipe(0b0100)));
    assert!(!bend.can_pass(Pipe(0b0010)));
    assert!(!bend.can_pass(Pipe(0b0101)));
    assert!(!Pipe::start().can_pass(Pipe(0b0001)));
    assert!(!Pipe::no_pipe().can_pass(Pipe(0b0001)));
}

#[test]
fn passing_a_pipe_leads_to_the_next_cell() {
    let pos = Pos::new(3, 5);
    let vertical = Pipe(0b0011);
    assert_eq!(vertical.move_trough(Pipe(0b0001), pos), (Pipe(0b0001), Pos { x: 3, y: 6 }));
    assert_eq!(vertical.move_trough(Pipe(0b0010), pos), (Pipe(0b0010), Pos { x: 3, y: 4 }));
    let horizontal = Pipe(0b1100);
    assert_eq!(horizontal.move_trough(Pipe(0b1000), pos), (Pipe(0b1000), Pos { x: 4, y: 5 }));
    assert_eq!(horizontal.move_trough(Pipe(0b0100), pos), (Pipe(0b0100), Pos { x: 2, y: 5 }));
}

#[test]
fn positions_move_by_one() {
    let pos = Pos::new(0, 0);
    assert_eq!(pos.move_east(), Pos { x: 1, y: 0 });
    assert_eq!(pos.move_south(), Pos { x: 0, y: 1 });
    assert_eq!(pos.move_west(), Pos { x: -1, y: 0 });
    assert_eq!(pos.move_north(), Pos { x: 0, y: -1 });
    assert_eq!(Pos { x: 2, y: 7 }.scale_up(3), Pos { x: 6, y: 21 });
}

#[test]
fn positions_off_the_rows_have_no_index() {
    assert_eq!(Pos { x: 2, y: 3 }.index(5), Some(17));
    assert_eq!(Pos { x: 0, y: 0 }.index(5), Some(0));
    assert_eq!(Pos { x: -1, y: 3 }.index(5), None);
    assert_eq!(Pos { x: 2, y: -1 }.index(5), None);
    assert_eq!(Pos { x: 5, y: 0 }.index(5), None);
    assert_eq!(Pos { x: 0, y: 0 }.index(0), None);
    assert_eq!(Pos { x: 1, y: isize::MAX }.index(usize::MAX), None);
}

#[test]
fn a_fresh_canvas_is_blank_and_has_a_rim() {
    let canvas = FilledGrid::new(2, 1);
    assert_eq!(canvas.width(), 2);
    assert_eq!(canvas.height(), 1);
    assert_eq!(canvas.count_blank(), 8 * 5);
    assert!(canvas.is_set_raw(Pos { x: 7, y: 4 }));
    assert!(!canvas.is_set_raw(Pos { x: 8, y: 4 }));
    assert!(!canvas.is_set_raw(Pos { x: 7, y: 5 }));
    assert!(!canvas.is_set_raw(Pos { x: -1, y: 0 }));
}

#[test]
fn a_block_shows_the_pipe() {
    let mut canvas = FilledGrid::new(2, 2);
    canvas.set(Pos { x: 1, y: 0 }, b'S', Pipe(0b0110));
    let rows: [&[u8; 3]; 3] = [b"---", b"-S*", b"-*-"];
    for sy in 0..3 {
        for sx in 0..3 {
            assert_eq!(canvas.cell(4 + sx, 1 + sy), rows[sy][sx]);
        }
    }
    assert_eq!(canvas.cell(3, 1), b' ');
    assert_eq!(canvas.cell(4, 4), b' ');
    assert_eq!(canvas.count_blank(), 8 * 8 - 9);
}

#[test]
fn the_flood_marks_free_cells_and_stops_at_walls() {
    let mut canvas = FilledGrid::new(1, 1);
    canvas.set(Pos { x: 0, y: 0 }, b'*', Pipe(0b0011));
    assert!(canvas.try_set_raw(Pos { x: 0, y: 0 }));
    assert_eq!(canvas.cell(0, 0), b'#');
    assert!(!canvas.try_set_raw(Pos { x: 0, y: 0 }));
    assert!(canvas.try_set_raw(Pos { x: 1, y: 1 }));
    assert_eq!(canvas.cell(1, 1), b'@');
    assert!(!canvas.try_set_raw(Pos { x: 2, y: 1 }));
    assert_eq!(canvas.cell(2, 1), b'*');
    assert!(!canvas.try_set_raw(Pos { x: 2, y: 2 }));
    assert!(!canvas.try_set_raw(Pos { x: 5, y: 0 }));
}

#[test]
fn the_flood_fills_what_it_reaches_and_no_more() {
    let mut canvas = FilledGrid::new(3, 1);
    canvas.set(Pos { x: 1, y: 0 }, b'*', Pipe(0b0011));
    canvas.flood_fill(Pos { x: 0, y: 0 });
    for y in 0..5 {
        for x in 0..11 {
            let expected = if x == 5 && (1..=3).contains(&y) {
                b'*'
            } else if (4..=6).contains(&x) && (1..=3).contains(&y) {
                b'@'
            } else {
                b'#'
            };
            assert_eq!(canvas.cell(x, y), expected);
        }
    }
}

#[test]
fn a_flood_from_a_wall_changes_nothing() {
    let mut canvas = FilledGrid::new(1, 1);
    canvas.set(Pos { x: 0, y: 0 }, b'*', Pipe(0b1111));
    canvas.flood_fill(Pos { x: 2, y: 1 });
    assert_eq!(canvas.count_blank(), 25 - 9);
    canvas.flood_fill(Pos { x: 9, y: 9 });
    assert_eq!(canvas.count_blank(), 25 - 9);
}

#[test]
fn a_second_flood_changes_nothing() {
    let mut canvas = FilledGrid::new(2, 2);
    canvas.set(Pos { x: 0, y: 0 }, b'S', Pipe(0b0110));
    canvas.set(Pos { x: 1, y: 0 }, b'*', Pipe(0b1010));
    canvas.set(Pos { x: 1, y: 1 }, b'*', Pipe(0b1001));
    canvas.set(Pos { x: 0, y: 1 }, b'*', Pipe(0b0101));
    canvas.flood_fill(Pos { x: 0, y: 0 });
    let mut once = Vec::new();
    for y in 0..8 {
        for x in 0..8 {
            once.push(canvas.cell(x, y));
        }
    }
    canvas.flood_fill(Pos { x: 0, y: 0 });
    let mut twice = Vec::new();
    for y in 0..8 {
        for x in 0..8 {
            twice.push(canvas.cell(x, y));
        }
    }
    assert_eq!(once, twice);
    assert!(once.contains(&b'#'));
    assert!(once.contains(&b'-'));
}
