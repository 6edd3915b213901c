use beveled_paths::board::Board;
use beveled_paths::direction::Direction;
use beveled_paths::symbol::{Color, Symbol};

#[test]
fn a_group_ends_where_the_color_changes() {
    let mut b = Board::new(vec![Symbol::White(4); 9], 3, 3).unwrap();
    assert!(b.add_line((0, 0), Direction::Right, Color::Red));
    assert!(b.add_line((1, 0), Direction::Right, Color::Red));
    assert!(b.add_line((0, 1), Direction::Right, Color::Green));
    assert!(b.add_line((0, 2), Direction::Right, Color::Red));
    assert!(b.add_line((1, 2), Direction::Right, Color::Blue));
    assert!(b.add_line((1, 1), Direction::Right, Color::Blue));
    let runs = b.groups();
    assert_eq!(
        runs,
        vec![
            (Color::Red, vec![((0, 0), Direction::Right), ((1, 0), Direction::Right)]),
            (Color::Green, vec![((0, 1), Direction::Right)]),
            (Color::Red, vec![((0, 2), Direction::Right)]),
            (Color::Blue, vec![((1, 2), Direction::Right), ((1, 1), Direction::Right)]),
        ]
    );
    let total: usize = runs.iter().map(|r| r.1.len()).sum();
    assert_eq!(total, b.edges().len());
}

#[test]
fn no_edges_no_groups() {
    let b = Board::new(vec![Symbol::Empty; 4], 2, 2).unwrap();
    assert!(b.groups().is_empty());
}
