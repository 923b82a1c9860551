use peg_solitaire::board::{Board, Cell};
use peg_solitaire::direction::Direction;
use peg_solitaire::play::Play;
use peg_solitaire::position::Position;
use peg_solitaire::solver::{
    cell_and_direction_to_play, filter_valid_play, play_move, solve, unplay_move,
};
use peg_solitaire::visited::VisitedSet;

const X: Cell = Cell::Peg;
const O: Cell = Cell::Hole;
const I: Cell = Cell::Absent;

fn board_of(rows: Vec<Vec<Cell>>) -> Board {
    Board::from_rows(rows).expect("well-formed board literal")
}

fn run_solve(board: &mut Board) -> (bool, Vec<Play>, usize) {
    let mut plays: Vec<Play> = Vec::new();
    let mut visited = VisitedSet::new(board);
    let solved = solve(board, &mut plays, &mut visited);
    (solved, plays, visited.len())
}

#[test]
fn single_peg_succeeds_immediately() {
    let mut b = board_of(vec![vec![O, X, O]]);
    let before = b.snapshot();
    let (solved, plays, _) = run_solve(&mut b);
    assert!(solved);
    assert!(plays.is_empty());
    assert!(b.same_as(&before));
}

#[test]
fn zero_pegs_succeeds_vacuously() {
    // The degenerate empty board is reported as already won: no jump could
    // ever arise on it, so the empty jump sequence wins it.
    let mut b = board_of(vec![vec![O, O], vec![O, I]]);
    let before = b.snapshot();
    let (solved, plays, _) = run_solve(&mut b);
    assert!(solved);
    assert!(plays.is_empty());
    assert!(b.same_as(&before));
}

#[test]
fn one_by_three_solves_in_one_move() {
    let mut b = board_of(vec![vec![O, X, X]]);
    let (solved, plays, _) = run_solve(&mut b);
    assert!(solved);
    assert_eq!(plays.len(), 1);
    assert_eq!(plays[0].start, Position(0, 2));
    assert_eq!(plays[0].end, Position(0, 0));
    let expected = board_of(vec![vec![X, O, O]]);
    assert!(b.same_as(&expected));
    assert!(plays[0].state.same_as(&expected));
    assert_eq!(b.peg_count(), 1);
}

#[test]
fn three_by_one_all_pegs_fails() {
    let mut b = board_of(vec![vec![X], vec![X], vec![X]]);
    let before = b.snapshot();
    let (solved, plays, _) = run_solve(&mut b);
    assert!(!solved);
    assert!(plays.is_empty());
    assert!(b.same_as(&before));
}

#[test]
fn horizontal_line_solves_from_either_end() {
    let (solved_left, _, _) = run_solve(&mut board_of(vec![vec![O, X, X]]));
    assert!(solved_left);
    let (solved_right, _, _) = run_solve(&mut board_of(vec![vec![X, X, O]]));
    assert!(solved_right);
}

#[test]
fn vertical_line_solves_from_either_end() {
    let (solved_down, _, _) = run_solve(&mut board_of(vec![vec![X], vec![X], vec![O]]));
    assert!(solved_down);
    let (solved_up, _, _) = run_solve(&mut board_of(vec![vec![O], vec![X], vec![X]]));
    assert!(solved_up);
}

#[test]
fn two_pegs_with_gap_fail() {
    // A jump needs an adjacent peg; a gap between the pegs leaves no move.
    let mut b = board_of(vec![vec![X, O, X]]);
    let (solved, plays, _) = run_solve(&mut b);
    assert!(!solved);
    assert!(plays.is_empty());
}

#[test]
fn three_row_triangles_solve() {
    for rows in [
        vec![vec![I, I, O], vec![I, O, X], vec![O, O, X]],
        vec![vec![I, I, O], vec![I, O, X], vec![X, X, O]],
        vec![vec![I, I, X], vec![I, X, X], vec![O, X, O]],
    ] {
        let mut b = board_of(rows);
        let (solved, _, _) = run_solve(&mut b);
        assert!(solved);
        assert_eq!(b.peg_count(), 1);
    }
}

#[test]
fn four_row_triangles_solve() {
    for rows in [
        vec![
            vec![I, I, I, O],
            vec![I, I, O, X],
            vec![I, O, O, X],
            vec![X, O, X, O],
        ],
        vec![
            vec![I, I, I, X],
            vec![I, I, X, X],
            vec![I, X, X, O],
            vec![O, X, X, O],
        ],
        vec![
            vec![I, I, I, X],
            vec![I, I, X, O],
            vec![I, X, X, X],
            vec![O, X, X, X],
        ],
    ] {
        let mut b = board_of(rows);
        let (solved, _, _) = run_solve(&mut b);
        assert!(solved);
        assert_eq!(b.peg_count(), 1);
    }
}

#[test]
fn five_row_triangle_solves() {
    let mut b = board_of(vec![
        vec![I, I, I, I, X],
        vec![I, I, I, X, X],
        vec![I, I, X, O, X],
        vec![I, X, X, X, X],
        vec![X, X, X, X, X],
    ]);
    let (solved, plays, _) = run_solve(&mut b);
    assert!(solved);
    assert_eq!(b.peg_count(), 1);
    // Fourteen pegs, one removed per jump, one left.
    assert_eq!(plays.len(), 13);
}

#[test]
fn classic_cross_solves_to_one_peg() {
    let mut b = board_of(cross_rows());
    assert_eq!(b.peg_count(), 32);
    let mut plays: Vec<Play> = Vec::new();
    let mut visited = VisitedSet::new(&b);
    let len_before = visited.len();
    let solved = solve(&mut b, &mut plays, &mut visited);
    assert!(solved);
    assert_eq!(b.peg_count(), 1);
    // Thirty-two pegs, one removed per jump, one left.
    assert_eq!(plays.len(), 31);
    // The dead-end cache only ever grows, and backtracking through dead
    // branches populates it.
    assert!(visited.len() >= len_before);
    // Every stored snapshot chains from the previous position.
    assert!(plays[30].state.same_as(&b));
}

fn cross_rows() -> Vec<Vec<Cell>> {
    let mut rows = Vec::new();
    for r in 0..7 {
        let mut row = Vec::new();
        for c in 0..7 {
            let arm = (2..5).contains(&r) || (2..5).contains(&c);
            if !arm {
                row.push(I);
            } else if r == 3 && c == 3 {
                row.push(O);
            } else {
                row.push(X);
            }
        }
        rows.push(row);
    }
    rows
}

#[test]
fn solve_is_deterministic() {
    let rows = vec![
        vec![I, I, I, X],
        vec![I, I, X, X],
        vec![I, X, X, O],
        vec![O, X, X, O],
    ];
    let mut b1 = board_of(rows.clone());
    let mut b2 = board_of(rows);
    let (solved1, plays1, visited1) = run_solve(&mut b1);
    let (solved2, plays2, visited2) = run_solve(&mut b2);
    assert_eq!(solved1, solved2);
    assert_eq!(visited1, visited2);
    assert_eq!(plays1.len(), plays2.len());
    assert!(b1.same_as(&b2));
    for (p1, p2) in plays1.iter().zip(plays2.iter()) {
        assert_eq!(p1.start, p2.start);
        assert_eq!(p1.end, p2.end);
        assert!(p1.state.same_as(&p2.state));
    }
}

#[test]
fn play_then_unplay_restores_board_exactly() {
    let mut b = board_of(vec![vec![X, X, O], vec![O, X, X]]);
    let before = b.snapshot();
    let start = Position(0, 0);
    let middle = Position(0, 1);
    let end = Position(0, 2);
    play_move(&mut b, start, middle, end);
    assert_eq!(b.get(0, 0), O);
    assert_eq!(b.get(0, 1), O);
    assert_eq!(b.get(0, 2), X);
    assert!(!b.same_as(&before));
    unplay_move(&mut b, start, middle, end);
    assert!(b.same_as(&before));
}

#[test]
fn cell_and_direction_project_the_three_cells() {
    // Flat index 5 in a 3-column grid is row 1, column 2.
    let (start, middle, end) = cell_and_direction_to_play(5, 3, Direction::Left);
    assert_eq!(start, Position(1, 2));
    assert_eq!(middle, Position(1, 1));
    assert_eq!(end, Position(1, 0));
    let (start, middle, end) = cell_and_direction_to_play(0, 3, Direction::Up);
    assert_eq!(start, Position(0, 0));
    assert_eq!(middle, Position(-1, 0));
    assert_eq!(end, Position(-2, 0));
}

#[test]
fn filter_keeps_only_playable_jumps() {
    let b = board_of(vec![vec![O, X, X]]);
    // Jump from column 2 leftwards over the peg at column 1 into the hole.
    let kept = filter_valid_play(&b, Position(0, 2), Position(0, 1), Position(0, 0));
    assert_eq!(kept, Some((Position(0, 2), Position(0, 1), Position(0, 0))));
    // The projection off the right edge is rejected.
    let off = filter_valid_play(&b, Position(0, 1), Position(0, 2), Position(0, 3));
    assert_eq!(off, None);
    // Jumping over a hole is rejected.
    let over_hole = filter_valid_play(&b, Position(0, 1), Position(0, 0), Position(0, -1));
    assert_eq!(over_hole, None);
}

#[test]
fn winning_line_is_not_recorded_as_dead_end() {
    // The cache means "proven unwinnable"; a successful search leaves it
    // exactly as the failed branches grew it, so the winning final board is
    // never in it.
    let mut b = board_of(vec![vec![O, X, X]]);
    let mut plays: Vec<Play> = Vec::new();
    let mut visited = VisitedSet::new(&b);
    let solved = solve(&mut b, &mut plays, &mut visited);
    assert!(solved);
    assert!(!visited.contains(&b));
}

#[test]
fn failed_search_records_the_board_as_dead_end() {
    let mut b = board_of(vec![vec![X], vec![X], vec![X]]);
    let mut plays: Vec<Play> = Vec::new();
    let mut visited = VisitedSet::new(&b);
    assert_eq!(visited.len(), 0);
    assert!(!visited.contains(&b));
    let solved = solve(&mut b, &mut plays, &mut visited);
    assert!(!solved);
    // The exhausted board itself is memoized, and the cache grew.
    assert!(visited.contains(&b));
    assert!(visited.len() >= 1);
}
