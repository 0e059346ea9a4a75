use beehive::dictionary::Dictionary;
use beehive::grid::{Grid, Kind, Line};

fn words(list: &[&str]) -> Vec<String> {
    list.iter().map(|w| w.to_string()).collect()
}

#[test]
fn grid_cells_and_lines() {
    let mut grid = Grid::new(3, 2);
    assert_eq!(grid.rows(), 3);
    assert_eq!(grid.cols(), 2);
    assert_eq!(grid.get_cell(0, 0), Some('\0'));
    assert_eq!(grid.get_cell(3, 0), None);

    grid.set_cell(0, 0, 'a');
    grid.set_cell(0, 1, 'b');
    grid.set_cell(1, 0, 'c');
    assert_eq!(grid.get_cell(0, 0), Some('a'));
    assert_eq!(grid.get_row(0).unwrap(), "ab");
    assert_eq!(grid.get_col(0).unwrap(), "ac\0");
    assert_eq!(grid.get_row(5), None);

    let line = Line { index: 0, kind: Kind::Col };
    assert_eq!(grid.get_line(&line).unwrap(), "ac\0");
    assert_eq!(grid.pattern(&line).unwrap(), "ac.");
}

#[test]
fn grid_set_line_writes_along_direction() {
    let mut grid = Grid::new(2, 3);
    grid.set_line(&Line { index: 1, kind: Kind::Row }, "xyz".to_string());
    assert_eq!(grid.get_row(1).unwrap(), "xyz");
    grid.set_line(&Line { index: 2, kind: Kind::Col }, "pq".to_string());
    assert_eq!(grid.get_col(2).unwrap(), "pq");
    assert_eq!(grid.get_row(1).unwrap(), "xyq");
}

#[test]
fn next_line_prefers_constrained_lines() {
    let mut grid = Grid::new(2, 2);
    grid.set_cell(0, 0, 'a');
    grid.set_cell(0, 1, 'b');
    // row 0 holds two letters, every other line at most one
    let first = grid.next_line().unwrap();
    assert_eq!(first, Line { index: 0, kind: Kind::Row });
    // the selection is a function of the board alone
    let again = grid.next_line().unwrap();
    assert_eq!(first, again);

    grid.flag_resolved(&first);
    let second = grid.next_line().unwrap();
    assert!(second != first);
}

#[test]
fn next_line_none_when_all_resolved() {
    let mut grid = Grid::new(1, 1);
    grid.flag_resolved(&Line { index: 0, kind: Kind::Row });
    grid.flag_resolved(&Line { index: 0, kind: Kind::Col });
    assert!(grid.next_line().is_none());
}

#[test]
fn duplicate_runs_rejected_across_lines() {
    let dict = Dictionary::new(words(&[]), words(&[]), words(&[]));
    let mut grid = Grid::new(2, 2);
    grid.set_row(0, "ab".to_string());
    grid.set_row(1, "ab".to_string());
    // columns "aa" and "bb" differ, rows "ab" and "ab" repeat
    assert!(grid.has_duplicates());
    assert!(grid.is_invalid(&dict));

    // with four distinct letters every bounded run is distinct
    let mut ok = Grid::new(2, 2);
    ok.set_row(0, "ab".to_string());
    ok.set_row(1, "cd".to_string());
    assert!(!ok.has_duplicates());
}

#[test]
fn unresolved_runs_do_not_count_as_words() {
    let mut grid = Grid::new(2, 2);
    grid.set_row(0, "ab".to_string());
    // row 1 is still unset, so only one bounded word exists
    assert!(!grid.has_duplicates());
}

#[test]
fn invalid_grid() {
    let mut grid = Grid::new(2, 2);
    grid.set_cell(0, 0, '_');
    grid.set_cell(0, 1, 'a');
    grid.set_cell(1, 0, '_');
    grid.set_cell(1, 1, '_');

    let has_isolated = grid.has_isolated_letters();

    println!("{}", has_isolated);
    assert!(has_isolated);
}

#[test]
fn forbidden_tuple_found_in_column() {
    let dict = Dictionary::new(words(&[]), words(&[]), words(&["xy"]));
    let mut grid = Grid::new(2, 2);
    grid.set_col(0, "xy".to_string());
    assert!(grid.has_forbidden_tupples(&dict));
    assert!(grid.is_invalid(&dict));
}

#[test]
fn blocked_board_is_valid() {
    let dict = Dictionary::new(words(&[]), words(&[]), words(&["xy", "ab"]));
    let mut grid = Grid::new(3, 3);
    for r in 0..3 {
        grid.set_row(r, "___".to_string());
    }
    assert!(!grid.is_invalid(&dict));
}

#[test]
fn generate_end_to_end_four_by_four() {
    let dict = Dictionary::new(
        words(&["cat", "art", "fig", "tar", "cfg"]),
        words(&[]),
        words(&[]),
    );
    let mut grid = Grid::new(4, 4);
    grid.set_cell(0, 0, '_');
    grid.set_cell(3, 3, '_');

    match grid.recursive_generate(&dict) {
        Some(full) => {
            // a returned board is fully resolved and passes every check,
            // and the template's blocked cells survive
            assert!(full.next_line().is_none());
            for r in 0..4 {
                let row = full.get_row(r).unwrap();
                assert!(!row.contains('\0'));
            }
            assert!(!full.is_invalid(&dict));
            assert_eq!(full.get_cell(0, 0), Some('_'));
            assert_eq!(full.get_cell(3, 3), Some('_'));
        },
        None => {
            // no arrangement of the list satisfies the constraints
        },
    }
}

#[test]
fn generate_fails_without_words() {
    // on a three-wide board even the single-gap variants find no
    // candidate in an empty list, so every branch is exhausted
    let dict = Dictionary::new(words(&[]), words(&[]), words(&[]));
    let grid = Grid::new(3, 3);
    assert!(grid.recursive_generate(&dict).is_none());
}

#[test]
fn gen_grid() {
    let start = std::time::Instant::now();
    let dictionary = Dictionary::new(
        words(&["ah", "ha", "oh", "aha", "hat", "tab", "bat"]),
        words(&[]),
        words(&[]),
    );
    let elapsed = start.elapsed();
    println!("dictionary created in {:?}", elapsed);

    let grid = Grid::new(3, 2);
    let full = grid.recursive_generate(&dictionary);
    let elapsed = start.elapsed();
    println!("grid created in {:?}", elapsed);
    println!("{:?}", full);

    if let Some(g) = full {
        for r in 0..g.rows() {
            println!("{:?}", g.get_row(r).unwrap());
        }
    }
}

#[test]
fn complete_valid_board_is_returned_unchanged() {
    let dict = Dictionary::new(words(&[]), words(&[]), words(&[]));
    let mut grid = Grid::new(1, 1);
    grid.set_cell(0, 0, '_');
    grid.flag_resolved(&Line { index: 0, kind: Kind::Row });
    grid.flag_resolved(&Line { index: 0, kind: Kind::Col });
    let out = grid.recursive_generate(&dict).unwrap();
    assert_eq!(out.get_cell(0, 0), Some('_'));
}
