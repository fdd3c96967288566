use paperbark::{Board, CheckRegionError, Game, Region, Ruleset, Square};

fn region(cells: &[(usize, usize)]) -> Region {
    let mut region = Region::new();
    for &cell in cells {
        region.add_square(cell.into());
    }
    region
}

fn rules(min: usize, max: usize, words: &[&str]) -> Ruleset {
    Ruleset {
        min_length: min,
        max_length: max,
        dictionary: words.iter().map(|w| w.to_string()).collect(),
    }
}

fn err_of(game: &Game<char>, r: &Region) -> Option<CheckRegionError> {
    match game.check_region(r) {
        Ok(_) => None,
        Err(e) => Some(e),
    }
}

#[test]
fn end_to_end_commit() {
    let board = Board::new(3, "ABCDEFGHI");
    let ruleset = rules(2, 4, &["AD"]);
    let mut game: Game<char> = Game::new(&board, &ruleset);
    let candidate = region(&[(0, 0), (0, 1)]);
    let checked = game.check_region(&candidate).ok().expect("region should pass");
    assert_eq!(candidate.word(game.board()), "AD");
    game.add_region(checked, 'X');
    assert!(!game.is_square_free(Square { x: 0, y: 0 }));
    assert!(!game.is_square_free(Square { x: 0, y: 1 }));
    assert!(game.is_square_free(Square { x: 1, y: 1 }));
    assert!(!game.is_complete());
    assert_eq!(game.regions().len(), 1);
    assert_eq!(game.regions()[0].1, 'X');
    assert_eq!(game.regions()[0].0.size(), 2);
}

#[test]
fn each_check_has_its_error() {
    let board = Board::new(3, "ABCDEFGHI");
    let ruleset = rules(2, 3, &["AD", "BE", "ABC", "DG"]);
    let mut game: Game<char> = Game::new(&board, &ruleset);
    assert_eq!(err_of(&game, &region(&[(0, 0)])), Some(CheckRegionError::TooShort));
    assert_eq!(
        err_of(&game, &region(&[(0, 0), (1, 0), (2, 0), (2, 1)])),
        Some(CheckRegionError::TooLong)
    );
    assert_eq!(err_of(&game, &region(&[(2, 2), (3, 2)])), Some(CheckRegionError::OutOfBounds));
    assert_eq!(err_of(&game, &region(&[(0, 0), (1, 1)])), Some(CheckRegionError::NotContiguous));
    assert_eq!(err_of(&game, &region(&[(1, 1), (2, 1)])), Some(CheckRegionError::NotInDictionary));
    let ad = region(&[(0, 0), (0, 1)]);
    let checked = game.check_region(&ad).ok().unwrap();
    game.add_region(checked, 'a');
    assert_eq!(err_of(&game, &region(&[(0, 1), (0, 2)])), Some(CheckRegionError::Overlapping));
    assert_eq!(err_of(&game, &region(&[(1, 0), (1, 1)])), None);
}

#[test]
fn too_short_comes_before_dictionary() {
    let board = Board::new(3, "ABCDEFGHI");
    let ruleset = rules(3, 4, &["XYZ"]);
    let game: Game<u8> = Game::new(&board, &ruleset);
    match game.check_region(&region(&[(0, 0), (0, 1)])) {
        Err(e) => assert_eq!(e, CheckRegionError::TooShort),
        Ok(_) => panic!("region should fail"),
    }
}

#[test]
fn overlap_reported_after_commit() {
    let board = Board::new(3, "ABCDEFGHI");
    let ruleset = rules(2, 3, &["AB", "BE"]);
    let mut game: Game<u8> = Game::new(&board, &ruleset);
    let ab = region(&[(0, 0), (1, 0)]);
    let checked = game.check_region(&ab).ok().unwrap();
    game.add_region(checked, 7);
    assert!(!game.is_square_free(Square { x: 1, y: 0 }));
    match game.check_region(&region(&[(1, 0), (1, 1)])) {
        Err(e) => assert_eq!(e, CheckRegionError::Overlapping),
        Ok(_) => panic!("region should overlap"),
    }
}

#[test]
fn remove_region_on_free_cell_changes_nothing() {
    let board = Board::new(3, "ABCDEFGHI");
    let ruleset = rules(2, 3, &["AD"]);
    let mut game: Game<u8> = Game::new(&board, &ruleset);
    let ad = region(&[(0, 0), (0, 1)]);
    let checked = game.check_region(&ad).ok().unwrap();
    game.add_region(checked, 1);
    assert!(game.remove_region(Square { x: 2, y: 2 }).is_none());
    assert_eq!(game.regions().len(), 1);
    assert_eq!(game.regions()[0].1, 1);
    let (removed, label) = game.remove_region(Square { x: 0, y: 1 }).unwrap();
    assert_eq!(label, 1);
    assert_eq!(removed.size(), 2);
    assert!(removed.contains_square(Square { x: 0, y: 0 }));
    assert_eq!(game.regions().len(), 0);
    assert!(game.is_square_free(Square { x: 0, y: 0 }));
}

#[test]
fn complete_when_every_cell_committed() {
    let board = Board::new(2, "ABCD");
    let ruleset = rules(2, 2, &["AB", "CD"]);
    let mut game: Game<u8> = Game::new(&board, &ruleset);
    let top = region(&[(0, 0), (1, 0)]);
    let bottom = region(&[(0, 1), (1, 1)]);
    let checked = game.check_region(&top).ok().unwrap();
    game.add_region(checked, 1);
    assert!(!game.is_complete());
    let checked = game.check_region(&bottom).ok().unwrap();
    game.add_region(checked, 2);
    assert!(game.is_complete());
    let (_, label) = game.remove_region(Square { x: 0, y: 0 }).unwrap();
    assert_eq!(label, 1);
    assert!(!game.is_complete());
    assert_eq!(game.regions()[0].1, 2);
}

#[test]
fn ruleset_lookup_is_exact() {
    let ruleset = rules(1, 5, &["CAT", "DOG"]);
    assert!(ruleset.has_word(&"CAT".to_string()));
    assert!(!ruleset.has_word(&"CA".to_string()));
    assert!(!ruleset.has_word(&"cat".to_string()));
}
