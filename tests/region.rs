use paperbark::{Board, Region, Square};

fn region(cells: &[(usize, usize)]) -> Region {
    let mut region = Region::new();
    for &cell in cells {
        region.add_square(cell.into());
    }
    region
}

fn board() -> Board {
    Board::new(3, "ABCDEFGHI")
}

#[test]
fn region_size() {
    let region1 = region(&[]);
    assert_eq!(region1.size(), 0);

    let region1 = region(&[(0, 0)]);
    assert_eq!(region1.size(), 1);

    let region1 = region(&[(0, 0), (0, 1)]);
    assert_eq!(region1.size(), 2);

    let region1 = region(&[(0, 0), (0, 1), (1, 0)]);
    assert_eq!(region1.size(), 3);
}

#[test]
fn region_word() {
    let board = board();

    let r = region(&[]);
    assert_eq!(r.word(&board), "");

    let r = region(&[(0, 0)]);
    assert_eq!(r.word(&board), "A");

    let r = region(&[(0, 0), (0, 1)]);
    assert_eq!(r.word(&board), "AD");

    let r = region(&[(0, 0), (0, 1), (1, 0)]);
    assert_eq!(r.word(&board), "ABD");

    let r = region(&[(0, 0), (0, 1), (0, 2), (1, 0), (2, 0)]);
    assert_eq!(r.word(&board), "ABCDG");

    let r = region(&[(0, 0), (0, 1), (0, 2), (1, 0), (2, 0), (2, 1), (2, 2)]);
    assert_eq!(r.word(&board), "ABCDFGI");
}

#[test]
fn region_is_in_bounds() {
    let board = board();

    let r = region(&[]);
    assert_eq!(r.is_in_bounds(&board), true);

    let r = region(&[(0, 0)]);
    assert_eq!(r.is_in_bounds(&board), true);

    let r = region(&[(2, 2)]);
    assert_eq!(r.is_in_bounds(&board), true);

    let r = region(&[(3, 2)]);
    assert_eq!(r.is_in_bounds(&board), false);

    let r = region(&[(2, 3)]);
    assert_eq!(r.is_in_bounds(&board), false);

    let r = region(&[(0, 0), (1, 1), (2, 2), (3, 3)]);
    assert_eq!(r.is_in_bounds(&board), false);
}

#[test]
fn region_is_contiguous() {
    let r = region(&[]);
    assert_eq!(r.is_contiguous(), true);

    let r = region(&[(0, 0)]);
    assert_eq!(r.is_contiguous(), true);

    let r = region(&[(0, 0), (0, 1)]);
    assert_eq!(r.is_contiguous(), true);

    let r = region(&[(0, 0), (1, 0)]);
    assert_eq!(r.is_contiguous(), true);

    let r = region(&[(0, 0), (1, 1)]);
    assert_eq!(r.is_contiguous(), false);

    let r = region(&[(0, 0), (0, 1), (1, 1)]);
    assert_eq!(r.is_contiguous(), true);

    let r = region(&[(0, 0), (1, 0), (1, 1)]);
    assert_eq!(r.is_contiguous(), true);

    let r = region(&[(0, 0), (0, 1), (2, 2)]);
    assert_eq!(r.is_contiguous(), false);

    let r = region(&[(0, 0), (0, 1), (0, 2), (1, 0), (2, 0), (2, 1), (2, 2)]);
    assert_eq!(r.is_contiguous(), true);
}

#[test]
fn add_and_remove_square_report_change() {
    let mut r = Region::new();
    let s = Square { x: 1, y: 2 };
    assert!(r.add_square(s));
    assert!(!r.add_square(s));
    assert_eq!(r.size(), 1);
    assert!(r.contains_square(s));
    assert!(r.remove_square(s));
    assert!(!r.remove_square(s));
    assert_eq!(r.size(), 0);
    assert!(!r.contains_square(s));
}

#[test]
fn squares_lists_each_cell_once() {
    let r = region(&[(2, 0), (0, 1), (2, 0), (1, 1)]);
    let mut cells: Vec<(usize, usize)> = r.squares().iter().map(|s| (s.x, s.y)).collect();
    cells.sort();
    assert_eq!(cells, vec![(0, 1), (1, 1), (2, 0)]);
}

#[test]
fn word_ignores_insertion_order() {
    let board = board();
    let r = region(&[(1, 0), (0, 1), (0, 0)]);
    assert_eq!(r.word(&board), "ABD");
    let r = region(&[(2, 2), (1, 2), (2, 1)]);
    assert_eq!(r.word(&board), "FHI");
}

#[test]
fn empty_region_on_other_boards() {
    let wide = Board::new(4, "WXYZ");
    let r = Region::new();
    assert_eq!(r.word(&wide), "");
    assert!(r.is_contiguous());
    assert!(r.is_in_bounds(&wide));
}

#[test]
fn single_cells_are_contiguous() {
    for y in 0..3 {
        for x in 0..3 {
            assert!(region(&[(x, y)]).is_contiguous());
        }
    }
}

#[test]
fn long_snake_is_contiguous_and_ring_with_hole() {
    let snake = region(&[(0, 0), (1, 0), (2, 0), (2, 1), (1, 1), (0, 1), (0, 2)]);
    assert!(snake.is_contiguous());
    let ring = region(&[(0, 0), (1, 0), (2, 0), (0, 1), (2, 1), (0, 2), (1, 2), (2, 2)]);
    assert!(ring.is_contiguous());
    let split = region(&[(0, 0), (2, 0), (0, 2), (2, 2)]);
    assert!(!split.is_contiguous());
}

#[test]
fn cloned_region_has_same_cells() {
    let r = region(&[(0, 0), (1, 0)]);
    let c = r.clone();
    assert_eq!(c.size(), 2);
    assert!(c.contains_square(Square { x: 1, y: 0 }));
}

#[test]
fn regions_equal_by_cells_not_order() {
    let a = region(&[(0, 0), (1, 0), (1, 1)]);
    let b = region(&[(1, 1), (0, 0), (1, 0)]);
    let c = region(&[(1, 1), (0, 0), (2, 0)]);
    let d = region(&[(1, 1), (0, 0)]);
    assert!(a == b);
    assert!(a != c);
    assert!(a != d);
    assert!(Region::new() == Region::new());
}
