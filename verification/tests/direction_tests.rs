use gridpath::direction::Direction;

#[test]
fn test_direction_to_value() {
    // Non diagonal
    assert_eq!(Direction { x: 1, y: 0 }.to_value(), 2);
    assert_eq!(Direction { x: 0, y: 1 }.to_value(), 4);
    assert_eq!(Direction { x: -1, y: 0 }.to_value(), 6);
    assert_eq!(Direction { x: 0, y: -1 }.to_value(), 8);
    // Diagonal
    assert_eq!(Direction { x: 1, y: 1 }.to_value(), 3);
    assert_eq!(Direction { x: -1, y: 1 }.to_value(), 5);
    assert_eq!(Direction { x: -1, y: -1 }.to_value(), 7);
    assert_eq!(Direction { x: 1, y: -1 }.to_value(), 9);
}

#[test]
fn test_value_to_direction() {
    // Non diagonal
    assert_eq!(Direction::from_value(2), Direction { x: 1, y: 0 });
    assert_eq!(Direction::from_value(4), Direction { x: 0, y: 1 });
    assert_eq!(Direction::from_value(6), Direction { x: -1, y: 0 });
    assert_eq!(Direction::from_value(8), Direction { x: 0, y: -1 });
    // Diagonal
    assert_eq!(Direction::from_value(3), Direction { x: 1, y: 1 });
    assert_eq!(Direction::from_value(5), Direction { x: -1, y: 1 });
    assert_eq!(Direction::from_value(7), Direction { x: -1, y: -1 });
    assert_eq!(Direction::from_value(9), Direction { x: 1, y: -1 });
}

#[test]
fn test_value_to_direction_rev() {
    // Non diagonal
    assert_eq!(Direction::from_value_reverse(2), Direction { x: -1, y: 0 });
    assert_eq!(Direction::from_value_reverse(4), Direction { x: 0, y: -1 });
    assert_eq!(Direction::from_value_reverse(6), Direction { x: 1, y: 0 });
    assert_eq!(Direction::from_value_reverse(8), Direction { x: 0, y: 1 });
    // Diagonal
    assert_eq!(Direction::from_value_reverse(3), Direction { x: -1, y: -1 });
    assert_eq!(Direction::from_value_reverse(5), Direction { x: 1, y: -1 });
    assert_eq!(Direction::from_value_reverse(7), Direction { x: 1, y: 1 });
    assert_eq!(Direction::from_value_reverse(9), Direction { x: -1, y: 1 });
}

#[test]
fn test_turn_tables() {
    let east = Direction { x: 1, y: 0 };
    assert_eq!(east.left(), Direction { x: 0, y: 1 });
    assert_eq!(east.right(), Direction { x: 0, y: -1 });
    assert_eq!(east.half_left(), Direction { x: 1, y: 1 });
    assert_eq!(east.half_right(), Direction { x: 1, y: -1 });
    assert!(!east.is_diagonal());
    let se = Direction { x: 1, y: 1 };
    assert!(se.is_diagonal());
    assert_eq!(se.left135(), Direction { x: -1, y: 0 });
    assert_eq!(se.right135(), Direction { x: 0, y: -1 });
    assert_eq!(se.half_left(), Direction { x: 0, y: 1 });
    assert_eq!(se.half_right(), Direction { x: 1, y: 0 });
}
