use beveled_paths::direction::{Direction, DirectionInner};
use beveled_paths::symbol::{Color, Symbol};

#[test]
fn colors_follow_each_other() {
    assert_eq!(Color::Red.next(), Some(Color::Green));
    assert_eq!(Color::Green.next(), Some(Color::Blue));
    assert_eq!(Color::Blue.next(), None);
}

#[test]
fn markers_of_each_color() {
    assert_eq!(Symbol::color(Color::Red), Symbol::R);
    assert_eq!(Symbol::color(Color::Green), Symbol::G);
    assert_eq!(Symbol::color(Color::Blue), Symbol::B);
    assert_eq!(Symbol::color_end(Color::Red), Symbol::REnd);
    assert_eq!(Symbol::color_end(Color::Green), Symbol::GEnd);
    assert_eq!(Symbol::color_end(Color::Blue), Symbol::BEnd);
}

#[test]
fn every_grid_character_has_its_symbol() {
    assert_eq!(Symbol::from_char('r'), Some(Symbol::R));
    assert_eq!(Symbol::from_char('g'), Some(Symbol::G));
    assert_eq!(Symbol::from_char('b'), Some(Symbol::B));
    assert_eq!(Symbol::from_char('R'), Some(Symbol::REnd));
    assert_eq!(Symbol::from_char('G'), Some(Symbol::GEnd));
    assert_eq!(Symbol::from_char('B'), Some(Symbol::BEnd));
    assert_eq!(Symbol::from_char('.'), Some(Symbol::Empty));
    assert_eq!(Symbol::from_char('1'), Some(Symbol::White(1)));
    assert_eq!(Symbol::from_char('2'), Some(Symbol::White(2)));
    assert_eq!(Symbol::from_char('3'), Some(Symbol::White(3)));
    assert_eq!(Symbol::from_char('4'), Some(Symbol::White(4)));
}

#[test]
fn other_characters_have_no_symbol() {
    assert_eq!(Symbol::from_char('0'), None);
    assert_eq!(Symbol::from_char('5'), None);
    assert_eq!(Symbol::from_char(' '), None);
    assert_eq!(Symbol::from_char('x'), None);
    assert_eq!(Symbol::from_char('W'), None);
}

#[test]
fn opposite_directions_share_a_slot() {
    assert_eq!(Direction::Up.to_inner(), (DirectionInner::Down, true));
    assert_eq!(Direction::Down.to_inner(), (DirectionInner::Down, false));
    assert_eq!(Direction::Left.to_inner(), (DirectionInner::Right, true));
    assert_eq!(Direction::Right.to_inner(), (DirectionInner::Right, false));
    assert_eq!(Direction::UpRight.to_inner(), (DirectionInner::DownLeft, true));
    assert_eq!(Direction::UpLeft.to_inner(), (DirectionInner::DownRight, true));
    assert_eq!(Direction::DownRight.to_inner(), (DirectionInner::DownRight, false));
    assert_eq!(Direction::DownLeft.to_inner(), (DirectionInner::DownLeft, false));
}

#[test]
fn offsets_of_the_eight_directions() {
    assert_eq!(Direction::Up.offset(), (0, -1));
    assert_eq!(Direction::UpRight.offset(), (1, -1));
    assert_eq!(Direction::Right.offset(), (1, 0));
    assert_eq!(Direction::DownRight.offset(), (1, 1));
    assert_eq!(Direction::Down.offset(), (0, 1));
    assert_eq!(Direction::DownLeft.offset(), (-1, 1));
    assert_eq!(Direction::Left.offset(), (-1, 0));
    assert_eq!(Direction::UpLeft.offset(), (-1, -1));
}

#[test]
fn a_step_adds_the_offset() {
    assert_eq!(Direction::Right.apply_offset((3, 4)), (4, 4));
    assert_eq!(Direction::UpLeft.apply_offset((3, 4)), (2, 3));
    assert_eq!(Direction::DownLeft.apply_offset((0, 0)), (-1, 1));
    assert_eq!(Direction::Up.apply_offset((0, 0)), (0, -1));
}

#[test]
fn an_edge_is_stored_at_one_of_its_ends() {
    assert_eq!(Direction::Right.store((2, 2)), ((2, 2), DirectionInner::Right));
    assert_eq!(Direction::Left.store((2, 2)), ((1, 2), DirectionInner::Right));
    assert_eq!(Direction::Down.store((2, 2)), ((2, 2), DirectionInner::Down));
    assert_eq!(Direction::Up.store((2, 2)), ((2, 1), DirectionInner::Down));
    assert_eq!(Direction::DownRight.store((2, 2)), ((2, 2), DirectionInner::DownRight));
    assert_eq!(Direction::UpLeft.store((2, 2)), ((1, 1), DirectionInner::DownRight));
    assert_eq!(Direction::DownLeft.store((2, 2)), ((2, 2), DirectionInner::DownLeft));
    assert_eq!(Direction::UpRight.store((2, 2)), ((3, 1), DirectionInner::DownLeft));
}

#[test]
fn both_ways_along_an_edge_name_the_same_slot() {
    for i in 0..8 {
        let d = Direction::nth(i);
        let there = d.apply_offset((5, 5));
        let back = match d {
            Direction::Right => Direction::Left,
            Direction::Left => Direction::Right,
            Direction::Up => Direction::Down,
            Direction::Down => Direction::Up,
            Direction::UpRight => Direction::DownLeft,
            Direction::DownLeft => Direction::UpRight,
            Direction::UpLeft => Direction::DownRight,
            Direction::DownRight => Direction::UpLeft,
        };
        assert_eq!(d.store((5, 5)), back.store(there));
    }
}

#[test]
fn only_diagonals_have_a_rival() {
    assert_eq!(Direction::Up.may_conflict((2, 2)), None);
    assert_eq!(Direction::Down.may_conflict((2, 2)), None);
    assert_eq!(Direction::Left.may_conflict((2, 2)), None);
    assert_eq!(Direction::Right.may_conflict((2, 2)), None);
    assert_eq!(Direction::UpRight.may_conflict((2, 2)), Some(((2, 1), DirectionInner::DownRight)));
    assert_eq!(Direction::UpLeft.may_conflict((2, 2)), Some(((2, 1), DirectionInner::DownLeft)));
    assert_eq!(Direction::DownRight.may_conflict((2, 2)), Some(((3, 2), DirectionInner::DownLeft)));
    assert_eq!(Direction::DownLeft.may_conflict((2, 2)), Some(((1, 2), DirectionInner::DownRight)));
}

#[test]
fn the_rival_is_the_other_diagonal_of_the_square() {
    // The square with corners (2,2), (3,2), (2,3), (3,3).
    let one = Direction::DownRight.store((2, 2));
    let other = Direction::DownLeft.store((3, 2));
    assert_eq!(Direction::DownRight.may_conflict((2, 2)), Some(other));
    assert_eq!(Direction::UpLeft.may_conflict((3, 3)), Some(other));
    assert_eq!(Direction::DownLeft.may_conflict((3, 2)), Some(one));
    assert_eq!(Direction::UpRight.may_conflict((2, 3)), Some(one));
}

#[test]
fn directions_are_tried_in_a_fixed_order() {
    let order = [
        Direction::Right,
        Direction::DownRight,
        Direction::Down,
        Direction::DownLeft,
        Direction::Left,
        Direction::UpLeft,
        Direction::Up,
        Direction::UpRight,
    ];
    for (i, d) in order.iter().enumerate() {
        assert_eq!(Direction::nth(i), *d);
    }
}

#[test]
fn stored_directions_and_their_slots() {
    assert_eq!(DirectionInner::Right.index(), 0);
    assert_eq!(DirectionInner::DownRight.index(), 1);
    assert_eq!(DirectionInner::Down.index(), 2);
    assert_eq!(DirectionInner::DownLeft.index(), 3);
    for d in 0..4u8 {
        assert_eq!(DirectionInner::from_index(d).index(), d as usize);
    }
    assert_eq!(Direction::from(DirectionInner::Right), Direction::Right);
    assert_eq!(Direction::from(DirectionInner::DownRight), Direction::DownRight);
    assert_eq!(Direction::from(DirectionInner::Down), Direction::Down);
    assert_eq!(Direction::from(DirectionInner::DownLeft), Direction::DownLeft);
}
