use paperbark::{fill_board, DictionaryData, GameData, OfficialData, Square};

fn letters(words: &[&str]) -> Vec<Vec<char>> {
    words.iter().map(|w| w.chars().collect()).collect()
}

fn official(regions: Vec<Vec<(usize, usize)>>, words: &[&str], dictionary: &[&str]) -> OfficialData {
    OfficialData {
        dictionary_data: DictionaryData(dictionary.iter().map(|w| w.to_string()).collect()),
        game_data: GameData {
            width: 2,
            height: 2,
            min_size: 2,
            max_size: 3,
            regions,
            words: words.iter().map(|w| w.to_string()).collect(),
        },
    }
}

#[test]
fn fill_board_places_letters_along_regions() {
    let regions = vec![vec![(0, 0), (0, 1)], vec![(1, 1), (1, 0)]];
    let board = fill_board(2, 2, &regions, &letters(&["AB", "CD"])).unwrap();
    assert_eq!(board.width(), 2);
    assert_eq!(board.height(), 2);
    assert_eq!(board.get(Square { x: 0, y: 0 }), 'A');
    assert_eq!(board.get(Square { x: 0, y: 1 }), 'B');
    assert_eq!(board.get(Square { x: 1, y: 1 }), 'C');
    assert_eq!(board.get(Square { x: 1, y: 0 }), 'D');
}

#[test]
fn fill_board_rejects_bad_layouts() {
    let two = vec![vec![(0, 0), (0, 1)], vec![(1, 1), (1, 0)]];
    assert!(fill_board(0, 2, &two, &letters(&["AB", "CD"])).is_none());
    assert!(fill_board(2, 2, &two, &letters(&["AB"])).is_none());
    assert!(fill_board(2, 2, &two, &letters(&["AB", "C"])).is_none());
    let overlapping = vec![vec![(0, 0), (0, 1)], vec![(0, 1), (1, 0)]];
    assert!(fill_board(2, 2, &overlapping, &letters(&["AB", "CD"])).is_none());
    let gap = vec![vec![(0, 0), (0, 1)], vec![(1, 1)]];
    assert!(fill_board(2, 2, &gap, &letters(&["AB", "C"])).is_none());
    let outside = vec![vec![(0, 0), (0, 1)], vec![(1, 1), (1, 2)]];
    assert!(fill_board(2, 2, &outside, &letters(&["AB", "CD"])).is_none());
    assert!(fill_board(usize::MAX, 2, &two, &letters(&["AB", "CD"])).is_none());
}

#[test]
fn official_board_is_upper_case() {
    let data = official(vec![vec![(0, 0), (1, 0)], vec![(0, 1), (1, 1)]], &["ab", "Cd"], &[]);
    let board = data.board().unwrap();
    assert_eq!(board.get(Square { x: 0, y: 0 }), 'A');
    assert_eq!(board.get(Square { x: 1, y: 0 }), 'B');
    assert_eq!(board.get(Square { x: 0, y: 1 }), 'C');
    assert_eq!(board.get(Square { x: 1, y: 1 }), 'D');
}

#[test]
fn official_board_rejects_overlap() {
    let data = official(vec![vec![(0, 0), (1, 0)], vec![(1, 0), (1, 1)]], &["ab", "cd"], &[]);
    assert!(data.board().is_none());
}

#[test]
fn official_ruleset_is_upper_case() {
    let data = official(vec![], &[], &["cat", "Dog"]);
    let ruleset = data.ruleset();
    assert_eq!(ruleset.min_length, 2);
    assert_eq!(ruleset.max_length, 3);
    assert_eq!(ruleset.dictionary, vec!["CAT".to_string(), "DOG".to_string()]);
    assert!(ruleset.has_word(&"CAT".to_string()));
    assert!(!ruleset.has_word(&"cat".to_string()));
}
