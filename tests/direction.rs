use gridkit::direction::Direction;

#[test]
fn turning_right_cycles() {
    assert_eq!(Direction::Up.right(), Direction::Right);
    assert_eq!(Direction::Right.right(), Direction::Down);
    assert_eq!(Direction::Down.right(), Direction::Left);
    assert_eq!(Direction::Left.right(), Direction::Up);
}

#[test]
fn advancing_moves_one_cell() {
    assert_eq!(Direction::Up.advance((3, 3)), Some((3, 2)));
    assert_eq!(Direction::Down.advance((3, 3)), Some((3, 4)));
    assert_eq!(Direction::Left.advance((3, 3)), Some((2, 3)));
    assert_eq!(Direction::Right.advance((3, 3)), Some((4, 3)));
    assert_eq!(Direction::Up.advance((5, 0)), None);
    assert_eq!(Direction::Left.advance((0, 5)), None);
    assert_eq!(Direction::Right.advance((usize::MAX, 0)), None);
}

#[test]
fn symbols() {
    assert_eq!(Direction::Up.symbol(false), '^');
    assert_eq!(Direction::Down.symbol(false), 'v');
    assert_eq!(Direction::Left.symbol(false), '<');
    assert_eq!(Direction::Right.symbol(false), '>');
    assert_eq!(Direction::Down.symbol(true), '|');
    assert_eq!(Direction::Left.symbol(true), '-');
}
