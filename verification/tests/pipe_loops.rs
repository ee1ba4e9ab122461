use puzzles::pipes::{
    parse, solve_enclosed_area, solve_loop_length, Grid, LoopError, Pipe, Pos,
};
use puzzles::text::is_rectangular;

const SQUARE: &str = ".....\n.S-7.\n.|.|.\n.L-J.\n.....";

const RING: &str = r#"
...........
.S-------7.
.|F-----7|.
.||.....||.
.||.....||.
.|L-7.F-J|.
.|..|.|..|.
.L--J.L--J.
..........."#;

fn grid(text: &str) -> Grid {
    assert!(is_rectangular(text));
    parse(text).unwrap()
}

fn mirrored(text: &str) -> String {
    let rows: Vec<String> = text
        .trim()
        .lines()
        .map(|row| {
            row.chars()
                .rev()
                .map(|c| match c {
                    'L' => 'J',
                    'J' => 'L',
                    'F' => '7',
                    '7' => 'F',
                    other => other,
                })
                .collect()
        })
        .collect();
    rows.join("\n")
}

fn transposed(text: &str) -> String {
    let rows: Vec<Vec<char>> = text.trim().lines().map(|row| row.chars().collect()).collect();
    let mut out = Vec::new();
    for x in 0..rows[0].len() {
        let mut line = String::new();
        for row in &rows {
            line.push(match row[x] {
                '|' => '-',
                '-' => '|',
                'L' => '7',
                '7' => 'L',
                other => other,
            });
        }
        out.push(line);
    }
    out.join("\n")
}

#[test]
fn a_grid_keeps_its_cells() {
    let g = grid(SQUARE);
    assert_eq!(g.width(), 5);
    assert_eq!(g.height(), 5);
    assert_eq!(g.cell_count(), 25);
    assert_eq!(g.start(), Pos { x: 1, y: 1 });
    assert_eq!(g.get(Pos { x: 1, y: 1 }), Pipe(0b1111));
    assert_eq!(g.get(Pos { x: 3, y: 1 }), Pipe(0b1010));
    assert_eq!(g.get(Pos { x: 1, y: 3 }), Pipe(0b0101));
    assert_eq!(g.get(Pos { x: 0, y: 0 }), Pipe(0));
}

#[test]
fn off_the_grid_there_is_no_pipe() {
    let g = grid("S-\n|J");
    assert_eq!(g.get(Pos { x: -1, y: 0 }), Pipe(0));
    assert_eq!(g.get(Pos { x: 0, y: -1 }), Pipe(0));
    assert_eq!(g.get(Pos { x: 2, y: 0 }), Pipe(0));
    assert_eq!(g.get(Pos { x: 0, y: 2 }), Pipe(0));
    assert_eq!(g.get(Pos { x: 1, y: 1 }), Pipe(0b1001));
}

#[test]
fn white_space_around_the_text_is_set_aside() {
    let g = grid("\n\n  .S-7.\n.|.|.\n.L-J.  \n\t\n");
    assert_eq!(g.width(), 5);
    assert_eq!(g.height(), 3);
    assert_eq!(g.start(), Pos { x: 1, y: 0 });
}

#[test]
fn ragged_lines_are_told_apart() {
    assert!(is_rectangular("S-7\n|.|\nL-J"));
    assert!(is_rectangular(""));
    assert!(is_rectangular("  \n "));
    assert!(!is_rectangular("S-7\n|.|.\nL-J"));
    assert!(!is_rectangular("S-7\n\nL-J"));
    assert!(is_rectangular("S-7\r\n|.|\r\nL-J"));
    assert!(is_rectangular("S-7\r\n|.|\nL-J\r"));
    assert!(!is_rectangular("S-7\r\r\n|.|\nL-J"));
}

#[test]
fn an_unknown_symbol_is_a_format_error() {
    assert_eq!(parse(".S-7.\n.|x|.\n.L-J.").err(), Some(LoopError::Format));
}

#[test]
fn a_text_without_a_start_is_a_format_error() {
    assert_eq!(parse(".F-7.\n.|.|.\n.L-J.").err(), Some(LoopError::Format));
    assert_eq!(parse("").err(), Some(LoopError::Format));
    assert_eq!(parse("  \n ").err(), Some(LoopError::Format));
}

#[test]
fn a_second_start_is_a_format_error() {
    assert_eq!(parse(".S-7.\n.|.|.\n.L-S.").err(), Some(LoopError::Format));
}

#[test]
fn a_start_without_two_neighbours_is_a_format_error() {
    assert_eq!(solve_loop_length(&grid("S")), Err(LoopError::Format));
    assert_eq!(solve_loop_length(&grid("...\n.S-\n...")), Err(LoopError::Format));
    assert_eq!(solve_loop_length(&grid(".|.\n-S-\n...")), Err(LoopError::Format));
    assert_eq!(solve_enclosed_area(&grid(".|.\n-S-\n.|.")), Err(LoopError::Format));
}

#[test]
fn a_walk_that_does_not_come_back_is_a_cycle_error() {
    assert_eq!(solve_loop_length(&grid(".....\n.S-7.\n.|...\n.L-..\n.....")), Err(LoopError::Cycle));
    assert_eq!(solve_enclosed_area(&grid("S-\n|.")), Err(LoopError::Cycle));
    assert_eq!(solve_loop_length(&grid(".|.\n.S.\n.|.")), Err(LoopError::Cycle));
}

#[test]
fn the_smallest_loop_has_four_cells() {
    let g = grid("S7\nLJ");
    let walker = g.walk_grid().unwrap();
    assert_eq!(walker.total_steps, 4);
    assert_eq!(solve_loop_length(&g), Ok(2));
    assert!(g.fits_canvas());
    assert_eq!(solve_enclosed_area(&g), Ok(0));
}

#[test]
fn the_walk_leaves_the_start_northwards_first() {
    let g = grid("F-7\n|.|\nS-J");
    let walker = g.walk_grid().unwrap();
    let cells: Vec<(isize, isize)> = walker.path.iter().map(|c| (c.0.x, c.0.y)).collect();
    assert_eq!(cells, vec![(0, 2), (0, 1), (0, 0), (1, 0), (2, 0), (2, 1), (2, 2), (1, 2)]);
    assert_eq!(walker.path[0].1, Pipe(0b0101));
    assert_eq!(walker.path[2].1, Pipe(0b0110));
}

#[test]
fn the_walk_visits_no_cell_twice() {
    let g = grid(RING);
    let walker = g.walk_grid().unwrap();
    assert!(walker.total_steps >= 4);
    assert_eq!(walker.path.len(), walker.total_steps);
    for i in 0..walker.path.len() {
        for j in 0..i {
            assert_ne!(walker.path[i].0, walker.path[j].0);
        }
    }
}

#[test]
fn the_loop_is_as_long_in_either_direction() {
    let there = solve_loop_length(&grid(RING));
    assert_eq!(there, Ok(23));
    assert_eq!(solve_loop_length(&grid(&mirrored(RING))), there);
    assert_eq!(solve_loop_length(&grid(&transposed(RING))), there);
}

#[test]
fn each_cell_is_on_the_loop_inside_or_outside() {
    let g = grid(RING);
    let walker = g.walk_grid().unwrap();
    let mut canvas = g.render(&walker);
    canvas.flood_fill(Pos { x: 0, y: 0 });
    let (mut on_loop, mut inside, mut outside) = (0, 0, 0);
    for y in 0..g.height() {
        for x in 0..g.width() {
            match canvas.cell(3 * x + 2, 3 * y + 2) {
                b' ' => inside += 1,
                b'#' => outside += 1,
                _ => on_loop += 1,
            }
        }
    }
    assert_eq!(on_loop, walker.total_steps);
    assert_eq!(Ok(inside), solve_enclosed_area(&g));
    assert_eq!(on_loop + inside + outside, g.width() * g.height());
    assert_eq!(canvas.count_blank(), 9 * inside);
}

#[test]
fn the_area_is_the_same_in_a_mirror() {
    let area = solve_enclosed_area(&grid(RING));
    assert_eq!(area, Ok(4));
    assert_eq!(solve_enclosed_area(&grid(&mirrored(RING))), area);
    assert_eq!(solve_enclosed_area(&grid(&transposed(RING))), area);
    assert_eq!(solve_enclosed_area(&grid(&mirrored(&transposed(RING)))), area);
}

#[test]
fn a_square_encloses_its_middle() {
    assert_eq!(solve_loop_length(&grid(SQUARE)), Ok(4));
    assert_eq!(solve_enclosed_area(&grid(SQUARE)), Ok(1));
}

#[test]
fn pipes_off_the_loop_count_as_cells() {
    let text = "F-7-J\n|S-7|\n||L||\n|L-J7\nL---J";
    assert_eq!(solve_loop_length(&grid(text)), Ok(4));
    assert_eq!(solve_enclosed_area(&grid(text)), Ok(1));
}
