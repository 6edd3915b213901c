use beveled_paths::board::Board;
use beveled_paths::closure::{color_solved, white_solved};
use beveled_paths::direction::Direction;
use beveled_paths::load::load;
use beveled_paths::solver::{find_start, move_to_next_color, solve, solve_color};
use beveled_paths::symbol::{Color, Symbol};

fn grid(rows: &[&str]) -> Board {
    let rows: Vec<Vec<char>> = rows.iter().map(|r| r.chars().collect()).collect();
    load(&rows).unwrap()
}

fn unchecked(rows: &[&str]) -> Board {
    let mut symbols = Vec::new();
    for row in rows {
        for c in row.chars() {
            symbols.push(Symbol::from_char(c).unwrap());
        }
    }
    Board::new(symbols, rows[0].len(), rows.len()).unwrap()
}

#[test]
fn adjacent_pairs_are_joined_directly() {
    let mut b = grid(&["RR", "GG"]);
    assert!(solve_color(&mut b, Color::Red));
    assert_eq!(
        b.edges(),
        &vec![((0, 0), Direction::Right, Color::Red), ((0, 1), Direction::Right, Color::Green)]
    );
    assert_eq!(b.line((0, 0), Direction::DownRight), None);
    assert_eq!(b.line((1, 0), Direction::DownLeft), None);
    assert_eq!(b.cell((0, 0)), Some((Symbol::REnd, 1)));
    assert_eq!(b.cell((1, 0)), Some((Symbol::REnd, 1)));
    assert_eq!(b.cell((0, 1)), Some((Symbol::GEnd, 1)));
    assert_eq!(b.cell((1, 1)), Some((Symbol::GEnd, 1)));
}

#[test]
fn a_lone_endpoint_beside_a_segment_is_not_solved() {
    // One endpoint of each colour only: a path has nowhere to end.
    let mut b = unchecked(&["RG", "gr"]);
    let before = b.clone();
    assert!(!solve_color(&mut b, Color::Red));
    assert_eq!(b, before);
}

#[test]
fn the_junction_is_entered_twice() {
    let mut b = grid(&["R2R", "11."]);
    assert!(solve_color(&mut b, Color::Red));
    assert_eq!(
        b.edges(),
        &vec![
            ((0, 0), Direction::Right, Color::Red),
            ((1, 0), Direction::Down, Color::Red),
            ((1, 1), Direction::Left, Color::Red),
            ((0, 1), Direction::UpRight, Color::Red),
            ((1, 0), Direction::Right, Color::Red),
        ]
    );
    assert_eq!(b.cell((1, 0)), Some((Symbol::White(2), 2)));
    assert_eq!(b.cell((1, 1)), Some((Symbol::White(1), 1)));
    assert_eq!(b.cell((0, 1)), Some((Symbol::White(1), 1)));
    assert!(white_solved(&b));
}

#[test]
fn a_junction_that_cannot_be_saturated_fails_the_search() {
    // The only path enters the junction once.
    let mut b = grid(&["R2R"]);
    let before = b.clone();
    assert!(!solve_color(&mut b, Color::Red));
    assert_eq!(b, before);
}

#[test]
fn a_junction_of_one_lies_on_the_path() {
    let mut b = grid(&["R1R"]);
    assert!(solve_color(&mut b, Color::Red));
    assert_eq!(
        b.edges(),
        &vec![((0, 0), Direction::Right, Color::Red), ((1, 0), Direction::Right, Color::Red)]
    );
    assert_eq!(b.cell((1, 0)), Some((Symbol::White(1), 1)));
}

#[test]
fn crossing_diagonals_leave_no_solution() {
    let mut b = grid(&["RG", "GR"]);
    let before = b.clone();
    assert!(!solve_color(&mut b, Color::Red));
    assert_eq!(b, before);
    assert!(b.edges().is_empty());
}

#[test]
fn dead_ends_are_taken_back() {
    let mut b = grid(&["Rr.", ".r.", ".rR"]);
    assert!(solve_color(&mut b, Color::Red));
    assert_eq!(
        b.edges(),
        &vec![
            ((0, 0), Direction::Right, Color::Red),
            ((1, 0), Direction::Down, Color::Red),
            ((1, 1), Direction::Down, Color::Red),
            ((1, 2), Direction::Right, Color::Red),
        ]
    );
    assert_eq!(b.edges().len(), 4);
    // The diagonal that was tried from (1,1) to the endpoint is gone.
    assert_eq!(b.line((1, 1), Direction::DownRight), None);
    assert_eq!(b.line((0, 0), Direction::DownRight), None);
    for y in 0..3 {
        for x in 0..3 {
            let (symbol, count) = b.cell((x, y)).unwrap();
            let expected = if symbol == Symbol::Empty { 0 } else { 1 };
            assert_eq!(count, expected);
        }
    }
}

#[test]
fn the_path_may_run_diagonally() {
    let mut b = grid(&["R..", ".r.", "..R"]);
    assert!(solve_color(&mut b, Color::Red));
    assert_eq!(
        b.edges(),
        &vec![((0, 0), Direction::DownRight, Color::Red), ((1, 1), Direction::DownRight, Color::Red)]
    );
}

#[test]
fn three_colors_are_solved_in_order() {
    let mut b = grid(&["RrR", "GgG", "BbB"]);
    assert!(solve_color(&mut b, Color::Red));
    assert_eq!(
        b.edges(),
        &vec![
            ((0, 0), Direction::Right, Color::Red),
            ((1, 0), Direction::Right, Color::Red),
            ((0, 1), Direction::Right, Color::Green),
            ((1, 1), Direction::Right, Color::Green),
            ((0, 2), Direction::Right, Color::Blue),
            ((1, 2), Direction::Right, Color::Blue),
        ]
    );
    let runs = b.groups();
    assert_eq!(runs.len(), 3);
    assert_eq!(runs[0], (Color::Red, vec![((0, 0), Direction::Right), ((1, 0), Direction::Right)]));
    assert_eq!(runs[1], (Color::Green, vec![((0, 1), Direction::Right), ((1, 1), Direction::Right)]));
    assert_eq!(runs[2], (Color::Blue, vec![((0, 2), Direction::Right), ((1, 2), Direction::Right)]));
}

#[test]
fn a_color_without_endpoints_is_passed_over() {
    let mut b = grid(&["BB", "rg"]);
    assert!(solve_color(&mut b, Color::Red));
    assert_eq!(b.edges(), &vec![((0, 0), Direction::Right, Color::Blue)]);
}

#[test]
fn an_empty_grid_is_solved_by_nothing() {
    let mut b = grid(&["..", ".."]);
    assert!(solve_color(&mut b, Color::Red));
    assert!(b.edges().is_empty());
    assert!(b.groups().is_empty());
}

#[test]
fn a_lone_junction_is_never_saturated() {
    let mut b = grid(&["1"]);
    let before = b.clone();
    assert!(!solve_color(&mut b, Color::Red));
    assert_eq!(b, before);
}

#[test]
fn an_unreachable_segment_keeps_the_color_open() {
    // The endpoints touch, but nothing leads to the segment in the corner.
    let mut b = grid(&["RR.", "...", "..r"]);
    let before = b.clone();
    assert!(!solve_color(&mut b, Color::Red));
    assert_eq!(b, before);
}

#[test]
fn the_path_goes_on_past_an_endpoint_that_does_not_close_it() {
    // Entering the second endpoint at once would leave the segment out.
    let mut b = grid(&["RR", ".r"]);
    assert!(solve_color(&mut b, Color::Red));
    assert_eq!(
        b.edges(),
        &vec![((0, 0), Direction::DownRight, Color::Red), ((1, 1), Direction::Up, Color::Red)]
    );
}

#[test]
fn a_later_color_that_fails_sends_the_earlier_one_back() {
    // Red's first path runs through the junction in the middle, which
    // Green needs; the search takes it back and sends Red round.
    let mut b = grid(&["..G", "R1G", "1Rg"]);
    assert!(solve_color(&mut b, Color::Red));
    assert_eq!(
        b.edges(),
        &vec![
            ((0, 1), Direction::Down, Color::Red),
            ((0, 2), Direction::Right, Color::Red),
            ((2, 0), Direction::DownLeft, Color::Green),
            ((1, 1), Direction::DownRight, Color::Green),
            ((2, 2), Direction::Up, Color::Green),
        ]
    );
    assert!(color_solved(&b, Color::Red));
    assert!(color_solved(&b, Color::Green));
    assert!(white_solved(&b));
}

#[test]
fn a_harder_grid() {
    let mut b = grid(&["RrR", "22g", "G1G"]);
    assert!(solve_color(&mut b, Color::Red));
    assert_eq!(
        b.edges(),
        &vec![
            ((0, 0), Direction::Right, Color::Red),
            ((1, 0), Direction::DownLeft, Color::Red),
            ((0, 1), Direction::Right, Color::Red),
            ((1, 1), Direction::UpRight, Color::Red),
            ((0, 2), Direction::Up, Color::Green),
            ((0, 1), Direction::DownRight, Color::Green),
            ((1, 2), Direction::Up, Color::Green),
            ((1, 1), Direction::Right, Color::Green),
            ((2, 1), Direction::Down, Color::Green),
        ]
    );
}

#[test]
fn the_first_endpoint_row_by_row_starts_the_path() {
    let b = grid(&[".gR", "G.r", "GR."]);
    assert_eq!(find_start(&b, Color::Red), Some(2));
    assert_eq!(find_start(&b, Color::Green), Some(3));
    assert_eq!(find_start(&b, Color::Blue), None);
}

#[test]
fn closure_looks_at_segments_only() {
    let mut b = unchecked(&["Rr", "rR"]);
    assert!(!color_solved(&b, Color::Red));
    assert!(color_solved(&b, Color::Green));
    assert!(b.add_line((0, 0), Direction::Right, Color::Red));
    assert!(!color_solved(&b, Color::Red));
    assert!(b.add_line((1, 0), Direction::DownLeft, Color::Red));
    assert!(color_solved(&b, Color::Red));
    let before = b.clone();
    color_solved(&b, Color::Red);
    assert_eq!(b, before);
}

#[test]
fn closure_counts_both_ends_of_an_edge() {
    let mut b = unchecked(&["rr"]);
    assert!(b.add_line((0, 0), Direction::Right, Color::Red));
    assert!(color_solved(&b, Color::Red));
    let mut b = unchecked(&["rr"]);
    assert!(b.add_line((1, 0), Direction::Left, Color::Red));
    assert!(color_solved(&b, Color::Red));
}

#[test]
fn closure_takes_only_edges_of_the_color() {
    let mut b = unchecked(&["2r"]);
    assert!(b.add_line((0, 0), Direction::Right, Color::Red));
    assert!(color_solved(&b, Color::Red));
    let mut b = unchecked(&["22r"]);
    assert!(b.add_line((0, 0), Direction::Right, Color::Green));
    assert!(!color_solved(&b, Color::Red));
}

#[test]
fn junctions_want_their_exact_number() {
    let mut b = unchecked(&["r2r"]);
    assert!(!white_solved(&b));
    assert!(b.add_line((0, 0), Direction::Right, Color::Red));
    assert!(!white_solved(&b));
    assert!(b.add_line((2, 0), Direction::Left, Color::Red));
    assert!(white_solved(&b));
    assert!(white_solved(&unchecked(&["Rr", "gB"])));
}

#[test]
fn the_search_from_a_cell_takes_the_first_direction_that_works() {
    let mut b = unchecked(&["rR", "R."]);
    assert!(solve(&mut b, (0, 0), Color::Red));
    assert_eq!(b.edges(), &vec![((0, 0), Direction::Right, Color::Red)]);
}

#[test]
fn the_search_from_a_cell_off_the_grid_finds_nothing() {
    let mut b = unchecked(&["RR"]);
    let before = b.clone();
    assert!(!solve(&mut b, (-1, 0), Color::Red));
    assert!(!solve(&mut b, (5, 5), Color::Red));
    assert_eq!(b, before);
}

#[test]
fn after_the_last_color_only_the_junctions_are_checked() {
    let mut b = unchecked(&["RR1"]);
    assert!(!move_to_next_color(&mut b, Color::Blue));
    let mut b = unchecked(&["RR."]);
    assert!(move_to_next_color(&mut b, Color::Blue));
    assert!(b.edges().is_empty());
    let mut b = unchecked(&["RRBB"]);
    assert!(move_to_next_color(&mut b, Color::Green));
    assert_eq!(b.edges(), &vec![((2, 0), Direction::Right, Color::Blue)]);
}

#[test]
fn a_solved_board_keeps_every_invariant() {
    let mut b = grid(&["R2R", "11.", "GgG"]);
    assert!(solve_color(&mut b, Color::Red));
    assert_eq!(b.edges().len(), 7);
    assert!(white_solved(&b));
    assert!(color_solved(&b, Color::Red));
    assert!(color_solved(&b, Color::Green));
    for y in 0..2 {
        for x in 0..2 {
            let one = b.line((x, y), Direction::DownRight).is_some();
            let other = b.line((x + 1, y), Direction::DownLeft).is_some();
            assert!(!(one && other));
        }
    }
    for y in 0..3 {
        for x in 0..3 {
            if let (Symbol::White(n), count) = b.cell((x, y)).unwrap() {
                assert_eq!(count, n);
            }
        }
    }
    // Each edge starts where the one before it led, within a colour.
    let edges = b.edges();
    for k in 1..edges.len() {
        if edges[k].2 == edges[k - 1].2 {
            assert_eq!(edges[k].0, edges[k - 1].1.apply_offset(edges[k - 1].0));
        }
    }
}
