use paperbark::{Board, Square};

#[test]
fn board_dimensions_and_cells() {
    let board = Board::new(3, "ABCDEFGHI");
    assert_eq!(board.width(), 3);
    assert_eq!(board.height(), 3);
    assert_eq!(board.get(Square { x: 0, y: 0 }), 'A');
    assert_eq!(board.get(Square { x: 2, y: 0 }), 'C');
    assert_eq!(board.get(Square { x: 1, y: 1 }), 'E');
    assert_eq!(board.get(Square { x: 0, y: 2 }), 'G');
}

#[test]
fn board_rectangular() {
    let board = Board::new(4, "ABCDEFGH");
    assert_eq!(board.width(), 4);
    assert_eq!(board.height(), 2);
    assert_eq!(board.get(Square { x: 3, y: 1 }), 'H');
    let empty = Board::new(2, "");
    assert_eq!(empty.height(), 0);
}

#[test]
fn neighbours_are_orthogonal_and_adjacent() {
    let s = Square { x: 1, y: 1 };
    assert!(s.is_neighbour_of(Square { x: 0, y: 1 }));
    assert!(s.is_neighbour_of(Square { x: 2, y: 1 }));
    assert!(s.is_neighbour_of(Square { x: 1, y: 0 }));
    assert!(s.is_neighbour_of(Square { x: 1, y: 2 }));
    assert!(!s.is_neighbour_of(s));
    assert!(!s.is_neighbour_of(Square { x: 0, y: 0 }));
    assert!(!s.is_neighbour_of(Square { x: 3, y: 1 }));
    assert!(!s.is_neighbour_of(Square { x: 1, y: 3 }));
}

#[test]
fn square_from_pair() {
    let s: Square = (4, 7).into();
    assert_eq!(s, Square { x: 4, y: 7 });
}
