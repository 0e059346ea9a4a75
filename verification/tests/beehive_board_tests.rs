use beehive::dictionary::Dictionary;
use beehive::grid_beehive::{GridBeehive, Kind, Line};

fn words(list: &[&str]) -> Vec<String> {
    list.iter().map(|w| w.to_string()).collect()
}

fn stamped_six() -> GridBeehive {
    let mut grid = GridBeehive::new(6, 6);
    grid.set_row(0, "__yeah".to_string());
    grid.set_row(1, "_h__so".to_string());
    grid.set_row(2, "sofa_t".to_string());
    grid.set_row(3, "t_r_i_".to_string());
    grid.set_row(4, "a_ex__".to_string());
    grid.set_row(5, "the___".to_string());
    grid
}

#[test]
fn diag_reads_and_writes() {
    let mut grid = GridBeehive::new(3, 3);
    assert_eq!(grid.diags(), 5);
    grid.set_diag(2, "abc".to_string());
    // diagonal 2 is (2,0), (1,1), (0,2)
    assert_eq!(grid.get_cell(2, 0), Some('a'));
    assert_eq!(grid.get_cell(1, 1), Some('b'));
    assert_eq!(grid.get_cell(0, 2), Some('c'));
    assert_eq!(grid.get_diag(2).unwrap(), "abc");
    // diagonal 3 is (2,1), (1,2)
    grid.set_diag(3, "xy".to_string());
    assert_eq!(grid.get_diag(3).unwrap(), "xy");
    assert_eq!(grid.get_diag(5), None);
    assert_eq!(
        grid.get_line(&Line { index: 3, kind: Kind::Diag }).unwrap(),
        "xy"
    );
}

#[test]
fn test_next_line() {
    let mut empty = GridBeehive::new(2, 2);
    let line = Line { index: 1, kind: Kind::Diag };
    empty.set_line(&line, "a_".to_string());
    empty.flag_resolved(&line);

    let next = empty.next_line();
    println!("{:?}", next);
    let picked = next.unwrap();
    assert!(picked != line);
}

#[test]
fn test_champfer() {
    let empty = GridBeehive::new_champfered(5, 5);
    // two corner diagonals blocked at each end: r + c < 2 or r + c > 6
    assert_eq!(empty.get_cell(0, 0), Some('_'));
    assert_eq!(empty.get_cell(0, 1), Some('_'));
    assert_eq!(empty.get_cell(1, 0), Some('_'));
    assert_eq!(empty.get_cell(4, 4), Some('_'));
    assert_eq!(empty.get_cell(4, 3), Some('_'));
    assert_eq!(empty.get_cell(3, 4), Some('_'));
    assert_eq!(empty.get_cell(0, 2), Some('\0'));
    assert_eq!(empty.get_cell(2, 2), Some('\0'));
    assert_eq!(empty.get_cell(4, 2), Some('\0'));

    for ctor in [
        GridBeehive::new_7x7_honeycomb,
        GridBeehive::new_6x6_honeycomb,
        GridBeehive::new_5x5_honeycomb,
        GridBeehive::new_5x6_honeycomb,
        GridBeehive::new_444_honeycomb,
        GridBeehive::new_6444_honeycomb,
    ] {
        let board = ctor();
        for r in 0..board.rows() {
            let row = board.get_row(r).unwrap();
            assert!(row.chars().all(|c| c == '\0' || c == '_'));
        }
    }
}

#[test]
fn connectivity_of_stamped_layout() {
    let grid = stamped_six();
    assert!(!grid.has_isles());
}

#[test]
fn isolated_island_detected() {
    let mut grid = GridBeehive::new(3, 3);
    grid.set_row(0, "a__".to_string());
    grid.set_row(1, "___".to_string());
    grid.set_row(2, "__b".to_string());
    assert!(grid.has_isles());
}

#[test]
fn blocked_beehive_is_valid() {
    let dict = Dictionary::new(words(&[]), words(&[]), words(&["ab"]));
    let mut grid = GridBeehive::new(4, 4);
    for r in 0..4 {
        grid.set_row(r, "____".to_string());
    }
    assert!(!grid.is_invalid(&dict));
}

#[test]
fn duplicates_found_on_diagonals() {
    let dict = Dictionary::new(words(&[]), words(&[]), words(&[]));
    let mut grid = GridBeehive::new(2, 2);
    // rows "ab" and "ba"; anti-diagonal 1 reads "ba" as well
    grid.set_row(0, "ab".to_string());
    grid.set_row(1, "ba".to_string());
    assert!(grid.has_duplicates());
    assert!(grid.is_invalid(&dict));
}

#[test]
fn beehive_generate_smoke() {
    let dict = Dictionary::new(
        words(&["cat", "art", "fig", "tar", "cfg"]),
        words(&[]),
        words(&[]),
    );
    let grid = GridBeehive::new(2, 2);
    match grid.recursive_generate(&dict, true) {
        Some(full) => {
            assert!(full.next_line().is_none());
        },
        None => {},
    }
}

#[test]
fn gen_grid_beehive_3() {
    let start = std::time::Instant::now();
    let dictionary = Dictionary::new(
        words(&["cat", "art", "fig", "tar", "cfg", "at", "ta", "if", "fa"]),
        words(&[]),
        words(&[]),
    );
    let elapsed = start.elapsed();
    println!("dictionary created in {:?}", elapsed);

    let empty = GridBeehive::new(4, 4);

    let full = empty.recursive_generate(&dictionary, true);
    let elapsed = start.elapsed();
    println!("grid created in {:?}", elapsed);
    println!("{:?}", full);

    if let Some(g) = full {
        for r in 0..g.rows() {
            println!("{:?}", g.get_row(r).unwrap());
        }
    }
}

#[test]
fn strict_generation_adds_no_blocked_cell() {
    let dict = Dictionary::new(words(&["aa", "ab", "ba", "bb"]), words(&[]), words(&[]));
    let grid = GridBeehive::new(2, 2);
    // without allow_adding_blacks, a blocked cell can only come from the
    // template, which here has none
    if let Some(full) = grid.recursive_generate(&dict, false) {
        for r in 0..2 {
            let row = full.get_row(r).unwrap();
            assert!(!row.contains('_'));
        }
    }
}

#[test]
fn honeycomb_layout_is_the_stamped_template() {
    let board = GridBeehive::new_5x5_honeycomb();
    assert_eq!(board.get_row(0).unwrap(), "__\0\0\0");
    assert_eq!(board.get_row(1).unwrap(), "_\0_\0_");
    assert_eq!(board.get_row(2).unwrap(), "\0\0\0\0\0");
    assert_eq!(board.get_row(3).unwrap(), "_\0_\0_");
    assert_eq!(board.get_row(4).unwrap(), "\0\0\0__");
}
