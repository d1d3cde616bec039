use boggle::board::{Board, Point};
use boggle::dictionary::get_prefixes;
use boggle::search::{contains_point, continue_path, search_board, start_path, Path};
use boggle::wordset::WordSet;

fn board(texts: &[&str]) -> Board {
    let rows: Vec<String> = texts.iter().map(|t| t.to_string()).collect();
    Board::from_rows(&rows).unwrap()
}

fn set(texts: &[&str]) -> WordSet {
    let mut words = WordSet::new();
    for text in texts {
        words.insert(text.to_string());
    }
    words
}

fn listed(set: &WordSet) -> Vec<String> {
    let mut words = set.words().clone();
    words.sort();
    words
}

#[test]
fn point_is_found_among_points() {
    let points = vec![Point { x: 0, y: 1 }, Point { x: 2, y: 2 }];
    assert!(contains_point(&points, Point { x: 0, y: 1 }));
    assert!(contains_point(&points, Point { x: 2, y: 2 }));
    assert!(!contains_point(&points, Point { x: 1, y: 0 }));
    assert!(!contains_point(&Vec::new(), Point { x: 0, y: 0 }));
}

#[test]
fn path_starts_on_one_cell_with_its_symbol() {
    let board = board(&["ab", "cd"]);
    let path = start_path(Point { x: 1, y: 0 }, &board);
    assert_eq!(path.points, vec![Point { x: 1, y: 0 }]);
    assert_eq!(path.string, "b");
    let path = start_path(Point { x: 0, y: 1 }, &board);
    assert_eq!(path.string, "c");
}

#[test]
fn copy_of_a_path_has_its_cells_and_symbols() {
    let path = Path {
        points: vec![Point { x: 0, y: 0 }, Point { x: 0, y: 1 }],
        string: "te".to_string(),
    };
    let copy = path.clone();
    assert_eq!(copy.points, path.points);
    assert_eq!(copy.string, path.string);
}

#[test]
fn search_from_a_cell_finds_the_words_that_start_there() {
    let board = board(&["lo", "ev"]);
    let words = set(&["love", "vole", "levo"]);
    let prefixes = get_prefixes(&words);
    let mut results = WordSet::new();
    let path = start_path(Point { x: 0, y: 0 }, &board);
    continue_path(path, &board, &words, &prefixes, &mut results);
    assert_eq!(listed(&results), vec!["levo", "love"]);
}

#[test]
fn search_keeps_what_was_found_before() {
    let board = board(&["lo", "ev"]);
    let words = set(&["love", "vole"]);
    let prefixes = get_prefixes(&words);
    let mut results = set(&["kept"]);
    let path = start_path(Point { x: 1, y: 1 }, &board);
    continue_path(path, &board, &words, &prefixes, &mut results);
    assert_eq!(listed(&results), vec!["kept", "vole"]);
}

#[test]
fn search_goes_on_from_a_longer_path() {
    let board = board(&["tap", "ers", "nod"]);
    let words = set(&["tear", "tears", "team", "tea"]);
    let prefixes = get_prefixes(&words);
    let mut results = WordSet::new();
    let path = Path {
        points: vec![Point { x: 0, y: 0 }, Point { x: 0, y: 1 }],
        string: "te".to_string(),
    };
    continue_path(path, &board, &words, &prefixes, &mut results);
    assert_eq!(listed(&results), vec!["tea", "tear", "tears"]);
}

#[test]
fn search_records_a_word_and_goes_on_past_it() {
    let board = board(&["to", "ot"]);
    let words = set(&["to", "too", "toot"]);
    let prefixes = get_prefixes(&words);
    let mut results = WordSet::new();
    continue_path(start_path(Point { x: 0, y: 0 }, &board), &board, &words, &prefixes, &mut results);
    assert_eq!(listed(&results), vec!["to", "too", "toot"]);
}

#[test]
fn search_does_not_record_the_path_it_starts_from() {
    let board = board(&["to", "ot"]);
    let words = set(&["t", "to"]);
    let prefixes = get_prefixes(&words);
    let mut results = WordSet::new();
    continue_path(start_path(Point { x: 0, y: 0 }, &board), &board, &words, &prefixes, &mut results);
    assert_eq!(listed(&results), vec!["to"]);
}

#[test]
fn search_gives_a_branch_up_where_no_prefix_fits() {
    let board = board(&["lo", "ev"]);
    let words = set(&["love"]);
    let prefixes = set(&["l", "lov", "love"]);
    let mut results = WordSet::new();
    continue_path(start_path(Point { x: 0, y: 0 }, &board), &board, &words, &prefixes, &mut results);
    assert_eq!(results.len(), 0);
    let prefixes = set(&["lo", "lov", "love"]);
    continue_path(start_path(Point { x: 0, y: 0 }, &board), &board, &words, &prefixes, &mut results);
    assert_eq!(listed(&results), vec!["love"]);
}

#[test]
fn search_never_uses_a_cell_twice() {
    let board = board(&["ab", "cd"]);
    let words = set(&["abab", "abca", "abcda", "aa"]);
    let prefixes = get_prefixes(&words);
    let mut results = WordSet::new();
    continue_path(start_path(Point { x: 0, y: 0 }, &board), &board, &words, &prefixes, &mut results);
    assert_eq!(results.len(), 0);
}

#[test]
fn search_steps_only_to_cells_that_touch() {
    let board = board(&["tap", "ers", "nod"]);
    let words = set(&["tape", "tap", "tar"]);
    let prefixes = get_prefixes(&words);
    let mut results = WordSet::new();
    continue_path(start_path(Point { x: 0, y: 0 }, &board), &board, &words, &prefixes, &mut results);
    assert_eq!(listed(&results), vec!["tap", "tar"]);
}

#[test]
fn search_of_the_board_starts_on_every_cell() {
    let board = board(&["lo", "ev"]);
    let words = set(&["love", "vole", "levo", "oval", "evol"]);
    let prefixes = get_prefixes(&words);
    let results = search_board(&board, &words, &prefixes);
    assert_eq!(listed(&results), vec!["evol", "levo", "love", "vole"]);
}

#[test]
fn search_of_the_board_finds_a_word_once() {
    let board = board(&["to", "ot"]);
    let words = set(&["toot", "otto"]);
    let prefixes = get_prefixes(&words);
    let results = search_board(&board, &words, &prefixes);
    assert_eq!(results.len(), 2);
    assert_eq!(listed(&results), vec!["otto", "toot"]);
}
