use beehive::beehive_serde::BeehiveSerde;
use beehive::beehive_swap::{is_yellow, BeehiveSwap, Cell, Color};
use beehive::grid_beehive::GridBeehive;

fn stamped_six() -> GridBeehive {
    let mut grid = GridBeehive::new(6, 6);
    grid.set_row(0, "__yeah".to_string());
    grid.set_row(1, "_h__so".to_string());
    grid.set_row(2, "sofa_t".to_string());
    grid.set_row(3, "t_r_i_".to_string());
    grid.set_row(4, "a_ex__".to_string());
    grid.set_row(5, "the___".to_string());
    grid
}

#[test]
fn serde_round_trip() {
    let grid = stamped_six();
    let record = BeehiveSerde::from(grid);
    assert_eq!(record.rows(), 6);
    assert_eq!(record.get_row(0).unwrap(), "__yeah");
    assert_eq!(record.get_row(5).unwrap(), "the___");
    assert_eq!(record.get_row(6), None);

    let back = record.into_grid();
    assert_eq!(back.rows(), 6);
    assert_eq!(back.cols(), 6);
    assert_eq!(back.get_row(0).unwrap(), "__yeah");
    assert_eq!(back.get_row(3).unwrap(), "t_r_i_");
}

#[test]
fn serde_duplicate_copies_rows() {
    let record = BeehiveSerde { layout: vec!["ab".to_string(), "cd".to_string()] };
    let copy = record.duplicate();
    assert_eq!(copy.layout, record.layout);
}

#[test]
fn swap_exchanges_two_tiles() {
    let grid = stamped_six();
    let mut swap = BeehiveSwap::from(grid);
    let a = Cell { row: 0, col: 3 };
    let b = Cell { row: 5, col: 2 };
    let va = swap.get_shuffled_cell(&a).unwrap();
    let vb = swap.get_shuffled_cell(&b).unwrap();
    swap.swap(&a, &b);
    assert_eq!(swap.get_shuffled_cell(&a).unwrap(), vb);
    assert_eq!(swap.get_shuffled_cell(&b).unwrap(), va);
    swap.swap(&a, &b);
    assert_eq!(swap.get_shuffled_cell(&a).unwrap(), va);
    assert_eq!(swap.get_shuffled_cell(&b).unwrap(), vb);
}

#[test]
fn shuffle_keeps_solved_layout_and_blocked_cells() {
    let grid = stamped_six();
    let swap = BeehiveSwap::from(grid);
    assert_eq!(swap.rows(), 6);
    assert_eq!(swap.cols(), 6);
    assert_eq!(swap.diags(), 11);
    // the solved side still reads the generated board
    assert_eq!(swap.get_solved_row(0).unwrap(), "__yeah");
    assert_eq!(swap.get_solved_col(0).unwrap(), "__stat");
    // blocked cells never move
    assert_eq!(swap.get_shuffled_cell(&Cell { row: 0, col: 0 }).unwrap(), '_');
    assert_eq!(swap.get_shuffled_cell(&Cell { row: 5, col: 5 }).unwrap(), '_');
    // the exclusion list keeps its tiles in place
    assert_eq!(
        swap.get_shuffled_cell(&Cell { row: 0, col: 2 }).unwrap(),
        swap.get_solved_cell(&Cell { row: 0, col: 2 }).unwrap()
    );
}

#[test]
fn swappable_cells_exclude_blocked_and_fixed() {
    let grid = stamped_six();
    let swap = BeehiveSwap::from(grid);
    let cells = swap.get_swappable_cells();
    assert!(!cells.contains(&Cell { row: 0, col: 0 }));
    assert!(!cells.contains(&Cell { row: 0, col: 2 }));
    assert!(!cells.contains(&Cell { row: 5, col: 0 }));
    assert!(cells.contains(&Cell { row: 0, col: 3 }));
    assert!(cells.contains(&Cell { row: 4, col: 3 }));
}

#[test]
fn solved_diag_reads_antidiagonal() {
    let grid = stamped_six();
    let swap = BeehiveSwap::from(grid);
    // diagonal 2 is (2,0), (1,1), (0,2)
    assert_eq!(swap.get_solved_diag(2).unwrap(), "shy");
    assert_eq!(swap.get_solved_diag(11), None);
}

#[test]
fn yellow_letter_present_elsewhere() {
    // tile 1 shows 'a', which the solved word holds at another position
    assert!(is_yellow("ab".to_string(), "ba".to_string(), 1));
    // tile 0 shows a letter the solved word does not hold at all
    assert!(!is_yellow("ab".to_string(), "cb".to_string(), 0));
    // a letter matched in place is struck, but a second copy still counts
    assert!(is_yellow("aab".to_string(), "aba".to_string(), 2));
}

#[test]
fn cell_color_green_when_in_place() {
    let grid = stamped_six();
    let mut swap = BeehiveSwap::from(grid);
    // force the shuffled side back to the solved one, tile by tile
    for r in 0..6 {
        for c in 0..6 {
            let cell = Cell { row: r, col: c };
            let solved = swap.get_solved_cell(&cell).unwrap();
            swap.set_shuffled_cell(&cell, solved);
        }
    }
    for r in 0..6 {
        for c in 0..6 {
            assert_eq!(swap.get_cell_color(&Cell { row: r, col: c }), Color::Green);
        }
    }
}

#[test]
fn cell_color_yellow_and_white() {
    let grid = stamped_six();
    let mut swap = BeehiveSwap::from(grid);
    for r in 0..6 {
        for c in 0..6 {
            let cell = Cell { row: r, col: c };
            let solved = swap.get_solved_cell(&cell).unwrap();
            swap.set_shuffled_cell(&cell, solved);
        }
    }
    // row 0 solves to "__yeah"; its feedback word is "yeah" at columns
    // 2..6. Swapping the 'e' and 'a' tiles leaves both letters present
    // but out of place
    swap.set_shuffled_cell(&Cell { row: 0, col: 3 }, 'a');
    swap.set_shuffled_cell(&Cell { row: 0, col: 4 }, 'e');
    assert_eq!(swap.get_cell_color(&Cell { row: 0, col: 3 }), Color::Yellow);
    // show 'q' instead, which "yeah" does not hold at all
    swap.set_shuffled_cell(&Cell { row: 0, col: 3 }, 'q');
    assert_eq!(swap.get_cell_color(&Cell { row: 0, col: 3 }), Color::White);
}

#[test]
fn shuffle_keeps_the_bag_of_tiles() {
    let grid = stamped_six();
    let swap = BeehiveSwap::from(grid);
    let mut solved_tiles: Vec<char> = Vec::new();
    let mut shuffled_tiles: Vec<char> = Vec::new();
    for r in 0..6 {
        for c in 0..6 {
            let cell = Cell { row: r, col: c };
            solved_tiles.push(swap.get_solved_cell(&cell).unwrap());
            shuffled_tiles.push(swap.get_shuffled_cell(&cell).unwrap());
        }
    }
    solved_tiles.sort();
    shuffled_tiles.sort();
    assert_eq!(solved_tiles, shuffled_tiles);
}
