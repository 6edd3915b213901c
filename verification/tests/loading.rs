use beveled_paths::load::{check_endpoints, count_symbol, load, read_symbols, LoadError};
use beveled_paths::symbol::{Color, Symbol};

fn rows(rows: &[&str]) -> Vec<Vec<char>> {
    rows.iter().map(|r| r.chars().collect()).collect()
}

#[test]
fn a_grid_is_read_row_by_row() {
    let cells = read_symbols(&rows(&["Rr.", "1gG"])).unwrap();
    assert_eq!(
        cells,
        vec![Symbol::REnd, Symbol::R, Symbol::Empty, Symbol::White(1), Symbol::G, Symbol::GEnd]
    );
}

#[test]
fn a_loaded_board_has_the_size_of_the_grid() {
    let b = load(&rows(&["R.R", "...", "G2G", "b.."])).unwrap();
    assert_eq!(b.width(), 3);
    assert_eq!(b.height(), 4);
    assert_eq!(b.cell((1, 2)), Some((Symbol::White(2), 0)));
    assert_eq!(b.cell((0, 3)), Some((Symbol::B, 0)));
    assert!(b.edges().is_empty());
}

#[test]
fn no_rows_is_no_input() {
    assert_eq!(read_symbols(&Vec::new()), Err(LoadError::NoInput));
    assert_eq!(load(&Vec::new()).err(), Some(LoadError::NoInput));
}

#[test]
fn rows_of_no_cells_make_an_empty_board() {
    let b = load(&rows(&["", ""])).unwrap();
    assert_eq!(b.width(), 0);
    assert_eq!(b.height(), 2);
}

#[test]
fn a_row_of_another_length_is_refused() {
    assert_eq!(load(&rows(&["R.R", "..", "..."])).err(), Some(LoadError::UnevenRow { row: 1 }));
    assert_eq!(load(&rows(&["..", "..", "..."])).err(), Some(LoadError::UnevenRow { row: 2 }));
    assert_eq!(load(&rows(&["", "."])).err(), Some(LoadError::UnevenRow { row: 1 }));
}

#[test]
fn an_unknown_character_is_refused() {
    assert_eq!(load(&rows(&["R.x"])).err(), Some(LoadError::InvalidSymbol { symbol: 'x' }));
    assert_eq!(load(&rows(&["...", ".5y"])).err(), Some(LoadError::InvalidSymbol { symbol: '5' }));
    assert_eq!(load(&rows(&["0"])).err(), Some(LoadError::InvalidSymbol { symbol: '0' }));
}

#[test]
fn the_first_faulty_row_decides() {
    // The length of a row is looked at before its characters.
    assert_eq!(load(&rows(&["..", "x.."])).err(), Some(LoadError::UnevenRow { row: 1 }));
    assert_eq!(load(&rows(&["..", ".x", "..."])).err(), Some(LoadError::InvalidSymbol { symbol: 'x' }));
    assert_eq!(load(&rows(&["x.", "..."])).err(), Some(LoadError::InvalidSymbol { symbol: 'x' }));
    // Faults of rows come before faults of the endpoints.
    assert_eq!(load(&rows(&["R.", ".?"])).err(), Some(LoadError::InvalidSymbol { symbol: '?' }));
}

#[test]
fn a_color_needs_no_endpoint_or_two() {
    assert_eq!(
        load(&rows(&["R..", "..."])).err(),
        Some(LoadError::EndpointCount { color: Color::Red, found: 1 })
    );
    assert_eq!(
        load(&rows(&["R.R", ".R."])).err(),
        Some(LoadError::EndpointCount { color: Color::Red, found: 3 })
    );
    assert_eq!(
        load(&rows(&["RGR", "GGG"])).err(),
        Some(LoadError::EndpointCount { color: Color::Green, found: 4 })
    );
    assert_eq!(
        load(&rows(&["RBR", "GrG"])).err(),
        Some(LoadError::EndpointCount { color: Color::Blue, found: 1 })
    );
    assert!(load(&rows(&["RBR", "GBG"])).is_ok());
    assert!(load(&rows(&["rgb", "123"])).is_ok());
}

#[test]
fn the_first_color_with_a_wrong_count_decides() {
    assert_eq!(
        load(&rows(&["RGB"])).err(),
        Some(LoadError::EndpointCount { color: Color::Red, found: 1 })
    );
    assert_eq!(
        load(&rows(&["BGB", "B.."])).err(),
        Some(LoadError::EndpointCount { color: Color::Green, found: 1 })
    );
    assert_eq!(
        check_endpoints(&vec![Symbol::BEnd, Symbol::GEnd, Symbol::GEnd]),
        Err(LoadError::EndpointCount { color: Color::Blue, found: 1 })
    );
    assert_eq!(check_endpoints(&Vec::new()), Ok(()));
}

#[test]
fn symbols_are_counted() {
    let cells = vec![
        Symbol::REnd,
        Symbol::White(2),
        Symbol::R,
        Symbol::White(2),
        Symbol::White(3),
        Symbol::REnd,
        Symbol::White(2),
    ];
    assert_eq!(count_symbol(&cells, Symbol::REnd), 2);
    assert_eq!(count_symbol(&cells, Symbol::R), 1);
    assert_eq!(count_symbol(&cells, Symbol::White(2)), 3);
    assert_eq!(count_symbol(&cells, Symbol::White(3)), 1);
    assert_eq!(count_symbol(&cells, Symbol::White(1)), 0);
    assert_eq!(count_symbol(&cells, Symbol::GEnd), 0);
    assert_eq!(count_symbol(&Vec::new(), Symbol::Empty), 0);
}
