use peg_solitaire::board::{Board, Cell};

fn board_of(rows: Vec<Vec<Cell>>) -> Board {
    Board::from_rows(rows).expect("well-formed board literal")
}

#[test]
fn from_rows_rejects_empty_grid() {
    assert!(Board::from_rows(vec![]).is_none());
    assert!(Board::from_rows(vec![vec![]]).is_none());
}

#[test]
fn from_rows_rejects_ragged_grid() {
    let rows = vec![vec![Cell::Peg, Cell::Hole], vec![Cell::Peg]];
    assert!(Board::from_rows(rows).is_none());
}

#[test]
fn from_rows_rejects_oversized_grid() {
    // 9 x 8 = 72 cells, more than the 64 the dead-end cache can encode.
    let rows: Vec<Vec<Cell>> = (0..9).map(|_| vec![Cell::Hole; 8]).collect();
    assert!(Board::from_rows(rows).is_none());
}

#[test]
fn from_rows_accepts_largest_grid() {
    let rows: Vec<Vec<Cell>> = (0..8).map(|_| vec![Cell::Peg; 8]).collect();
    let b = board_of(rows);
    assert_eq!(b.rows(), 8);
    assert_eq!(b.cols(), 8);
    assert_eq!(b.peg_count(), 64);
}

#[test]
fn get_reads_back_the_literal() {
    let b = board_of(vec![
        vec![Cell::Absent, Cell::Peg, Cell::Hole],
        vec![Cell::Peg, Cell::Hole, Cell::Absent],
    ]);
    assert_eq!(b.rows(), 2);
    assert_eq!(b.cols(), 3);
    assert_eq!(b.get(0, 0), Cell::Absent);
    assert_eq!(b.get(0, 1), Cell::Peg);
    assert_eq!(b.get(0, 2), Cell::Hole);
    assert_eq!(b.get(1, 0), Cell::Peg);
    assert_eq!(b.get(1, 1), Cell::Hole);
    assert_eq!(b.get(1, 2), Cell::Absent);
}

#[test]
fn set_changes_one_cell_only() {
    let mut b = board_of(vec![vec![Cell::Peg, Cell::Hole], vec![Cell::Hole, Cell::Peg]]);
    b.set(0, 1, Cell::Peg);
    assert_eq!(b.get(0, 0), Cell::Peg);
    assert_eq!(b.get(0, 1), Cell::Peg);
    assert_eq!(b.get(1, 0), Cell::Hole);
    assert_eq!(b.get(1, 1), Cell::Peg);
    assert_eq!(b.peg_count(), 3);
}

#[test]
fn peg_count_counts_only_pegs() {
    let b = board_of(vec![
        vec![Cell::Absent, Cell::Peg, Cell::Hole],
        vec![Cell::Peg, Cell::Peg, Cell::Absent],
    ]);
    assert_eq!(b.peg_count(), 3);
}

#[test]
fn snapshot_is_equal_and_independent() {
    let mut b = board_of(vec![vec![Cell::Peg, Cell::Hole, Cell::Peg]]);
    let snap = b.snapshot();
    assert!(b.same_as(&snap));
    b.set(0, 1, Cell::Peg);
    assert!(!b.same_as(&snap));
    assert_eq!(snap.get(0, 1), Cell::Hole);
}

#[test]
fn same_as_compares_extent_and_cells() {
    let a = board_of(vec![vec![Cell::Peg, Cell::Hole]]);
    let b = board_of(vec![vec![Cell::Peg, Cell::Hole]]);
    let c = board_of(vec![vec![Cell::Peg, Cell::Peg]]);
    let d = board_of(vec![vec![Cell::Peg], vec![Cell::Hole]]);
    assert!(a.same_as(&b));
    assert!(!a.same_as(&c));
    assert!(!a.same_as(&d));
}
