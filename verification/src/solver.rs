use vstd::prelude::*;

use vstd::arithmetic::div_mod::{lemma_fundamental_div_mod, lemma_mod_bound};

use crate::board::{
    cell_at, grid_cols, grid_pegs, grid_rows, grid_set, grid_wf, in_grid, lemma_flat_index,
    lemma_grid_set_frame, lemma_same_shape_symm, lemma_same_shape_trans, same_shape, Board, Cell,
    Grid, MAX_CELLS,
};
use crate::direction::{
    delta_col, delta_row, direction_from_index, direction_index, lemma_direction_index, Direction,
};
use crate::play::Play;
use crate::position::Position;
use crate::visited::VisitedSet;

verus! {

/// A candidate jump, named by its starting cell's coordinates and a
/// direction.
pub type Jump = (int, int, Direction);

/// Row of the cell a jump passes over.
pub open spec fn jump_mid_row(j: Jump) -> int {
    j.0 + delta_row(j.2)
}

/// Column of the cell a jump passes over.
pub open spec fn jump_mid_col(j: Jump) -> int {
    j.1 + delta_col(j.2)
}

/// Row of the cell a jump lands on.
pub open spec fn jump_end_row(j: Jump) -> int {
    j.0 + 2 * delta_row(j.2)
}

/// Column of the cell a jump lands on.
pub open spec fn jump_end_col(j: Jump) -> int {
    j.1 + 2 * delta_col(j.2)
}

/// A jump is legal when its three cells are on the grid, a peg jumps over an
/// adjacent peg, and it lands in a hole.
pub open spec fn jump_legal(g: Grid, j: Jump) -> bool {
    &&& in_grid(g, j.0, j.1)
    &&& in_grid(g, jump_mid_row(j), jump_mid_col(j))
    &&& in_grid(g, jump_end_row(j), jump_end_col(j))
    &&& cell_at(g, j.0, j.1) == Cell::Peg
    &&& cell_at(g, jump_mid_row(j), jump_mid_col(j)) == Cell::Peg
    &&& cell_at(g, jump_end_row(j), jump_end_col(j)) == Cell::Hole
}

/// The grid after a jump: the start and jumped cells emptied, the landing
/// cell filled.
pub open spec fn jump_apply(g: Grid, j: Jump) -> Grid {
    grid_set(
        grid_set(grid_set(g, j.0, j.1, Cell::Hole), jump_mid_row(j), jump_mid_col(j), Cell::Hole),
        jump_end_row(j),
        jump_end_col(j),
        Cell::Peg,
    )
}

/// Each jump of the sequence is legal on the grid the earlier jumps produce.
pub open spec fn plan_legal(g: Grid, js: Seq<Jump>) -> bool
    decreases js.len(),
{
    js.len() == 0 || (jump_legal(g, js[0]) && plan_legal(jump_apply(g, js[0]), js.drop_first()))
}

/// The grid a sequence of jumps produces.
pub open spec fn plan_apply(g: Grid, js: Seq<Jump>) -> Grid
    decreases js.len(),
{
    if js.len() == 0 {
        g
    } else {
        plan_apply(jump_apply(g, js[0]), js.drop_first())
    }
}

/// Some legal sequence of jumps reduces the grid to at most one peg. A grid
/// already down to one peg — or to none — is winnable by the empty sequence.
pub open spec fn winnable(g: Grid) -> bool {
    exists|js: Seq<Jump>| plan_legal(g, js) && grid_pegs(plan_apply(g, js)) <= 1
}

/// The three cells of a legal jump are pairwise distinct.
proof fn lemma_jump_cells_distinct(g: Grid, j: Jump)
    requires
        jump_legal(g, j),
    ensures
        !(j.0 == jump_mid_row(j) && j.1 == jump_mid_col(j)),
        !(j.0 == jump_end_row(j) && j.1 == jump_end_col(j)),
        !(jump_mid_row(j) == jump_end_row(j) && jump_mid_col(j) == jump_end_col(j)),
{
    assert(delta_row(j.2) != 0 || delta_col(j.2) != 0);
}

/// A legal jump keeps the grid well-formed, keeps its extent and shape, and
/// removes exactly one peg.
pub proof fn lemma_jump_apply(g: Grid, j: Jump)
    requires
        grid_wf(g),
        jump_legal(g, j),
    ensures
        grid_wf(jump_apply(g, j)),
        grid_rows(jump_apply(g, j)) == grid_rows(g),
        grid_cols(jump_apply(g, j)) == grid_cols(g),
        same_shape(jump_apply(g, j), g),
        grid_pegs(jump_apply(g, j)) + 1 == grid_pegs(g),
{
    lemma_jump_cells_distinct(g, j);
    let sr = j.0;
    let sc = j.1;
    let mr = jump_mid_row(j);
    let mc = jump_mid_col(j);
    let er = jump_end_row(j);
    let ec = jump_end_col(j);
    let g1 = grid_set(g, sr, sc, Cell::Hole);
    lemma_grid_set_frame(g, sr, sc, Cell::Hole);
    let g2 = grid_set(g1, mr, mc, Cell::Hole);
    lemma_grid_set_frame(g1, mr, mc, Cell::Hole);
    let g3 = grid_set(g2, er, ec, Cell::Peg);
    lemma_grid_set_frame(g2, er, ec, Cell::Peg);
    assert(cell_at(g1, mr, mc) == Cell::Peg);
    assert(cell_at(g2, er, ec) == Cell::Hole);
    assert(grid_pegs(g3) + 1 == grid_pegs(g));
    assert forall|r2: int| 0 <= r2 < g3.len() implies (#[trigger] g3[r2]).len() == g[r2].len() by {
        assert(g3[r2].len() == g3[0].len());
        assert(g[r2].len() == g[0].len());
    };
    assert forall|r2: int, c2: int|
        0 <= r2 < g3.len() && 0 <= c2 < g3[r2].len() implies ((#[trigger] g3[r2][c2])
        == Cell::Absent <==> g[r2][c2] == Cell::Absent) by {
        assert(in_grid(g, r2, c2));
        if r2 == sr && c2 == sc {
            assert(cell_at(g3, r2, c2) == Cell::Hole);
        } else if r2 == mr && c2 == mc {
            assert(cell_at(g3, r2, c2) == Cell::Hole);
        } else if r2 == er && c2 == ec {
            assert(cell_at(g3, r2, c2) == Cell::Peg);
        } else {
            assert(cell_at(g3, r2, c2) == cell_at(g, r2, c2));
        }
    };
}

/// A grid with at most one peg is winnable by doing nothing.
pub proof fn lemma_winnable_terminal(g: Grid)
    requires
        grid_pegs(g) <= 1,
    ensures
        winnable(g),
{
    let js = Seq::<Jump>::empty();
    assert(plan_legal(g, js));
    assert(plan_apply(g, js) == g);
}

/// Prefixing a legal jump onto a winning plan wins from the earlier grid.
pub proof fn lemma_winnable_step(g: Grid, j: Jump)
    requires
        jump_legal(g, j),
        winnable(jump_apply(g, j)),
    ensures
        winnable(g),
{
    let g1 = jump_apply(g, j);
    let js = choose|js: Seq<Jump>| plan_legal(g1, js) && grid_pegs(plan_apply(g1, js)) <= 1;
    let js2 = seq![j] + js;
    assert(js2.drop_first() =~= js);
    assert(js2[0] == j);
    assert(jump_apply(g, js2[0]) == g1);
    assert(plan_legal(g, js2));
    assert(plan_apply(g, js2) == plan_apply(g1, js));
}

/// A grid with two or more pegs from which every legal jump leads to an
/// unwinnable grid is itself unwinnable: the memoization cache may record it
/// as a dead end.
pub proof fn lemma_unwinnable_cut(g: Grid)
    requires
        grid_pegs(g) >= 2,
        forall|j: Jump| #[trigger] jump_legal(g, j) ==> !winnable(jump_apply(g, j)),
    ensures
        !winnable(g),
{
    if winnable(g) {
        let js = choose|js: Seq<Jump>| plan_legal(g, js) && grid_pegs(plan_apply(g, js)) <= 1;
        if js.len() == 0 {
            assert(plan_apply(g, js) == g);
        } else {
            let j = js[0];
            assert(jump_legal(g, j));
            let g1 = jump_apply(g, j);
            assert(plan_legal(g1, js.drop_first()) && grid_pegs(plan_apply(g1, js.drop_first()))
                <= 1);
            assert(winnable(g1));
        }
    }
}

/// Law: playing a jump and then unplaying it restores the grid exactly, for
/// any three pairwise-distinct cells holding peg, peg and hole.
pub proof fn lemma_play_unplay_roundtrip(
    g: Grid,
    sr: int,
    sc: int,
    mr: int,
    mc: int,
    er: int,
    ec: int,
)
    requires
        grid_wf(g),
        in_grid(g, sr, sc),
        in_grid(g, mr, mc),
        in_grid(g, er, ec),
        !(sr == mr && sc == mc),
        !(sr == er && sc == ec),
        !(mr == er && mc == ec),
        cell_at(g, sr, sc) == Cell::Peg,
        cell_at(g, mr, mc) == Cell::Peg,
        cell_at(g, er, ec) == Cell::Hole,
    ensures
        grid_set(
            grid_set(
                grid_set(
                    grid_set(
                        grid_set(grid_set(g, sr, sc, Cell::Hole), mr, mc, Cell::Hole),
                        er,
                        ec,
                        Cell::Peg,
                    ),
                    sr,
                    sc,
                    Cell::Peg,
                ),
                mr,
                mc,
                Cell::Peg,
            ),
            er,
            ec,
            Cell::Hole,
        ) == g,
{
    let g1 = grid_set(g, sr, sc, Cell::Hole);
    lemma_grid_set_frame(g, sr, sc, Cell::Hole);
    let g2 = grid_set(g1, mr, mc, Cell::Hole);
    lemma_grid_set_frame(g1, mr, mc, Cell::Hole);
    let g3 = grid_set(g2, er, ec, Cell::Peg);
    lemma_grid_set_frame(g2, er, ec, Cell::Peg);
    let g4 = grid_set(g3, sr, sc, Cell::Peg);
    lemma_grid_set_frame(g3, sr, sc, Cell::Peg);
    let g5 = grid_set(g4, mr, mc, Cell::Peg);
    lemma_grid_set_frame(g4, mr, mc, Cell::Peg);
    let g6 = grid_set(g5, er, ec, Cell::Hole);
    lemma_grid_set_frame(g5, er, ec, Cell::Hole);
    assert forall|r2: int, c2: int| in_grid(g, r2, c2) implies cell_at(g6, r2, c2) == cell_at(
        g,
        r2,
        c2,
    ) by {
        if r2 == sr && c2 == sc {
            assert(cell_at(g6, r2, c2) == Cell::Peg);
        } else if r2 == mr && c2 == mc {
            assert(cell_at(g6, r2, c2) == Cell::Peg);
        } else if r2 == er && c2 == ec {
            assert(cell_at(g6, r2, c2) == Cell::Hole);
        } else {
            assert(cell_at(g1, r2, c2) == cell_at(g, r2, c2));
            assert(cell_at(g2, r2, c2) == cell_at(g, r2, c2));
            assert(cell_at(g3, r2, c2) == cell_at(g, r2, c2));
            assert(cell_at(g4, r2, c2) == cell_at(g, r2, c2));
            assert(cell_at(g5, r2, c2) == cell_at(g, r2, c2));
            assert(cell_at(g6, r2, c2) == cell_at(g, r2, c2));
        }
    };
    assert forall|r2: int| 0 <= r2 < g.len() implies g6[r2] =~= g[r2] by {
        assert(g6[r2].len() == g6[0].len());
        assert(g[r2].len() == g[0].len());
    };
    assert(g6 =~~= g);
}

/// Project a jump from a flat cell index and a direction: the start cell,
/// the jumped-over cell one delta away, and the landing cell two deltas
/// away, all still in signed space.
pub fn cell_and_direction_to_play(index: usize, cols: usize, direction: Direction) -> (r: (
    Position,
    Position,
    Position,
))
    requires
        1 <= cols,
        cols <= MAX_CELLS,
        index < MAX_CELLS,
    ensures
        r.0.0 as int == (index as int) / (cols as int),
        r.0.1 as int == (index as int) % (cols as int),
        r.1.0 as int == r.0.0 + delta_row(direction),
        r.1.1 as int == r.0.1 + delta_col(direction),
        r.2.0 as int == r.0.0 + 2 * delta_row(direction),
        r.2.1 as int == r.0.1 + 2 * delta_col(direction),
{
    proof {
        lemma_fundamental_div_mod(index as int, cols as int);
        lemma_mod_bound(index as int, cols as int);
        assert(0 <= (index as int) / (cols as int) <= index as int) by (nonlinear_arith)
            requires
                0 <= index,
                1 <= cols,
        ;
    }
    let row = (index / cols) as isize;
    let col = (index % cols) as isize;
    let start = Position(row, col);
    let delta = direction.to_delta();
    let middle = start.add(delta);
    let end = start.add(delta.scale(2));
    (start, middle, end)
}

/// Keep a projected jump only when it can actually be played: its middle and
/// landing cells are on the board, the middle holds a peg and the landing
/// cell is a hole (whether the start holds a peg is the caller's concern, as
/// it only projects jumps from cells it has already seen to hold pegs).
pub fn filter_valid_play(board: &Board, start: Position, middle: Position, end: Position) -> (r:
    Option<(Position, Position, Position)>)
    requires
        board.wf(),
    ensures
        (match r {
            Some(t) => {
                &&& t == ((start, middle, end))
                &&& in_grid(board@, start.0 as int, start.1 as int)
                &&& in_grid(board@, middle.0 as int, middle.1 as int)
                &&& in_grid(board@, end.0 as int, end.1 as int)
                &&& cell_at(board@, middle.0 as int, middle.1 as int) == Cell::Peg
                &&& cell_at(board@, end.0 as int, end.1 as int) == Cell::Hole
            },
            None => !({
                &&& in_grid(board@, start.0 as int, start.1 as int)
                &&& in_grid(board@, middle.0 as int, middle.1 as int)
                &&& in_grid(board@, end.0 as int, end.1 as int)
                &&& cell_at(board@, middle.0 as int, middle.1 as int) == Cell::Peg
                &&& cell_at(board@, end.0 as int, end.1 as int) == Cell::Hole
            }),
        }),
{
    proof {
        board.lemma_wf_view();
        assert(grid_rows(board@) <= MAX_CELLS && grid_cols(board@) <= MAX_CELLS)
            by (nonlinear_arith)
            requires
                1 <= grid_rows(board@),
                1 <= grid_cols(board@),
                grid_rows(board@) * grid_cols(board@) <= MAX_CELLS,
        ;
    }
    let rows = board.rows();
    let cols = board.cols();
    let min = Position(0, 0);
    let max = Position(rows as isize, cols as isize);
    let m = middle.check_bounds(&min, &max);
    let e = end.check_bounds(&min, &max);
    let s = start.check_bounds(&min, &max);
    if let (Some(sp), Some(mp), Some(ep)) = (s, m, e) {
        if board.get(mp.0 as usize, mp.1 as usize) == Cell::Peg && board.get(
            ep.0 as usize,
            ep.1 as usize,
        ) == Cell::Hole {
            Some((sp, mp, ep))
        } else {
            None
        }
    } else {
        None
    }
}

/// Execute a jump on the board: empty the start and jumped cells, fill the
/// landing cell.
pub fn play_move(board: &mut Board, start: Position, middle: Position, end: Position)
    requires
        old(board).wf(),
        in_grid(old(board)@, start.0 as int, start.1 as int),
        in_grid(old(board)@, middle.0 as int, middle.1 as int),
        in_grid(old(board)@, end.0 as int, end.1 as int),
    ensures
        final(board).wf(),
        final(board)@ == grid_set(
            grid_set(
                grid_set(old(board)@, start.0 as int, start.1 as int, Cell::Hole),
                middle.0 as int,
                middle.1 as int,
                Cell::Hole,
            ),
            end.0 as int,
            end.1 as int,
            Cell::Peg,
        ),
{
    proof {
        old(board).lemma_wf_view();
    }
    board.set(start.0 as usize, start.1 as usize, Cell::Hole);
    proof {
        lemma_grid_set_frame(old(board)@, start.0 as int, start.1 as int, Cell::Hole);
    }
    board.set(middle.0 as usize, middle.1 as usize, Cell::Hole);
    proof {
        lemma_grid_set_frame(
            grid_set(old(board)@, start.0 as int, start.1 as int, Cell::Hole),
            middle.0 as int,
            middle.1 as int,
            Cell::Hole,
        );
    }
    board.set(end.0 as usize, end.1 as usize, Cell::Peg);
}

/// Undo a jump exactly: put the start and jumped pegs back, empty the
/// landing cell again.
pub fn unplay_move(board: &mut Board, start: Position, middle: Position, end: Position)
    requires
        old(board).wf(),
        in_grid(old(board)@, start.0 as int, start.1 as int),
        in_grid(old(board)@, middle.0 as int, middle.1 as int),
        in_grid(old(board)@, end.0 as int, end.1 as int),
    ensures
        final(board).wf(),
        final(board)@ == grid_set(
            grid_set(
                grid_set(old(board)@, start.0 as int, start.1 as int, Cell::Peg),
                middle.0 as int,
                middle.1 as int,
                Cell::Peg,
            ),
            end.0 as int,
            end.1 as int,
            Cell::Hole,
        ),
{
    proof {
        old(board).lemma_wf_view();
    }
    board.set(start.0 as usize, start.1 as usize, Cell::Peg);
    proof {
        lemma_grid_set_frame(old(board)@, start.0 as int, start.1 as int, Cell::Peg);
    }
    board.set(middle.0 as usize, middle.1 as usize, Cell::Peg);
    proof {
        lemma_grid_set_frame(
            grid_set(old(board)@, start.0 as int, start.1 as int, Cell::Peg),
            middle.0 as int,
            middle.1 as int,
            Cell::Peg,
        );
    }
    board.set(end.0 as usize, end.1 as usize, Cell::Hole);
}

/// Lexicographic order on the scan of (row, column, direction index): the
/// enumeration order of candidate jumps.
pub open spec fn scanned_before(r: int, c: int, i: int, row: int, col: int, di: int) -> bool {
    r < row || (r == row && (c < col || (c == col && i < di)))
}

/// Every legal jump whose scan position precedes (row, col, di) leads to an
/// unwinnable grid.
pub open spec fn no_win_before(g: Grid, row: int, col: int, di: int) -> bool {
    forall|j: Jump|
        #[trigger] jump_legal(g, j) && scanned_before(
            j.0,
            j.1,
            direction_index(j.2),
            row,
            col,
            di,
        ) ==> !winnable(jump_apply(g, j))
}

/// The plays record a chain of legal jumps from g to h: each play's start
/// and end cells name a legal jump, and its stored snapshot is the grid that
/// jump produces.
pub open spec fn valid_trace(g: Grid, ps: Seq<Play>, h: Grid) -> bool
    decreases ps.len(),
{
    if ps.len() == 0 {
        h == g
    } else {
        exists|j: Jump|
            {
                &&& #[trigger] jump_legal(g, j)
                &&& ps[0].start.0 as int == j.0
                &&& ps[0].start.1 as int == j.1
                &&& ps[0].end.0 as int == jump_end_row(j)
                &&& ps[0].end.1 as int == jump_end_col(j)
                &&& ps[0].state@ == jump_apply(g, j)
                &&& valid_trace(jump_apply(g, j), ps.drop_first(), h)
            }
    }
}

/// The scan order on jumps: a jump comes earlier when its start cell comes
/// earlier in row-major order, or, from the same cell, when its direction
/// comes earlier in the fixed direction order.
pub open spec fn scan_lt(a: Jump, b: Jump) -> bool {
    scanned_before(a.0, a.1, direction_index(a.2), b.0, b.1, direction_index(b.2))
}

/// The jump the search plays next from g: the legal jump, earliest in scan
/// order, whose result is still winnable.
pub open spec fn is_first_winning_jump(g: Grid, j: Jump) -> bool {
    &&& jump_legal(g, j)
    &&& winnable(jump_apply(g, j))
    &&& forall|j2: Jump|
        #[trigger] jump_legal(g, j2) && winnable(jump_apply(g, j2)) ==> !scan_lt(j2, j)
}

/// At most one jump is first in scan order.
proof fn lemma_first_winning_jump_unique(g: Grid, a: Jump, b: Jump)
    requires
        is_first_winning_jump(g, a),
        is_first_winning_jump(g, b),
    ensures
        a == b,
{
    lemma_direction_index(a.2);
    lemma_direction_index(b.2);
    if a != b {
        if a.0 == b.0 && a.1 == b.1 && direction_index(a.2) == direction_index(b.2) {
            assert(a.2 == b.2);
        } else {
            assert(scan_lt(a, b) || scan_lt(b, a));
        }
    }
}

/// The jump sequence a search on a winnable board discovers: at each step
/// the first winning jump in scan order. On an unwinnable board it is empty,
/// and no search claim is made of it.
pub open spec fn dfs_plan(g: Grid) -> Seq<Jump>
    decreases grid_pegs(g),
    via dfs_plan_decreases
{
    if grid_pegs(g) <= 1 {
        Seq::empty()
    } else if grid_wf(g) && (exists|j: Jump| is_first_winning_jump(g, j)) {
        let j = choose|j: Jump| is_first_winning_jump(g, j);
        seq![j] + dfs_plan(jump_apply(g, j))
    } else {
        Seq::empty()
    }
}

#[via_fn]
proof fn dfs_plan_decreases(g: Grid) {
    if grid_pegs(g) > 1 && grid_wf(g) && (exists|j: Jump| is_first_winning_jump(g, j)) {
        let j = choose|j: Jump| is_first_winning_jump(g, j);
        lemma_jump_apply(g, j);
    }
}

/// The plays record exactly the given jumps, snapshot by snapshot.
pub open spec fn trace_of(g: Grid, js: Seq<Jump>, ps: Seq<Play>) -> bool
    decreases js.len(),
{
    &&& ps.len() == js.len()
    &&& js.len() > 0 ==> {
        let j = js[0];
        &&& ps[0].start.0 as int == j.0
        &&& ps[0].start.1 as int == j.1
        &&& ps[0].end.0 as int == jump_end_row(j)
        &&& ps[0].end.1 as int == jump_end_col(j)
        &&& ps[0].state@ == jump_apply(g, j)
        &&& trace_of(jump_apply(g, j), js.drop_first(), ps.drop_first())
    }
}

/// Law: the search is deterministic. Any two play histories that record one
/// jump sequence from one grid agree play for play: same start, same end,
/// same board snapshot. Since a successful search appends exactly the plays
/// of dfs_plan of its starting grid, two searches from equal boards append
/// equal histories.
pub proof fn lemma_trace_determined(g: Grid, js: Seq<Jump>, ps1: Seq<Play>, ps2: Seq<Play>)
    requires
        trace_of(g, js, ps1),
        trace_of(g, js, ps2),
    ensures
        ps1.len() == ps2.len(),
        forall|i: int|
            0 <= i < ps1.len() ==> (#[trigger] ps1[i]).start == ps2[i].start && ps1[i].end
                == ps2[i].end && ps1[i].state@ == ps2[i].state@,
    decreases js.len(),
{
    if js.len() > 0 {
        lemma_trace_determined(
            jump_apply(g, js[0]),
            js.drop_first(),
            ps1.drop_first(),
            ps2.drop_first(),
        );
        assert forall|i: int|
            0 <= i < ps1.len() implies (#[trigger] ps1[i]).start == ps2[i].start && ps1[i].end
            == ps2[i].end && ps1[i].state@ == ps2[i].state@ by {
            if i == 0 {
                assert(ps1[0].start.0 == ps2[0].start.0 && ps1[0].start.1 == ps2[0].start.1);
                assert(ps1[0].end.0 == ps2[0].end.0 && ps1[0].end.1 == ps2[0].end.1);
            } else {
                assert(ps1[i] == ps1.drop_first()[i - 1]);
                assert(ps2[i] == ps2.drop_first()[i - 1]);
                assert(ps1.drop_first()[i - 1].start == ps2.drop_first()[i - 1].start);
            }
        };
    }
}

/// The solver: recursive depth-first search with a memoized dead-end cache.
///
/// Returns whether the current board can be reduced to at most one peg by
/// legal jumps, mutating the board and play history in place. A board
/// already down to one peg reports success at once, untouched; so does the
/// degenerate board with no pegs at all, its success vacuous, since no jump
/// could ever arise on it. On success the board holds the final position,
/// the plays pushed beyond those already in the history form the winning
/// trace, and the cache is left exactly as the failed branches grew it: a
/// winning line is never recorded as a dead end. On failure board and
/// history are restored exactly, and the board joins the cache along with
/// every dead end proven underneath it. Either way the cache only ever
/// grows, and its invariant — nothing in it is winnable — is kept, so no
/// pruning ever cuts off a solvable line.
#[verifier::loop_isolation(false)]
#[verifier::rlimit(100)]
pub fn solve(board: &mut Board, plays: &mut Vec<Play>, visited: &mut VisitedSet) -> (r: bool)
    requires
        old(board).wf(),
        old(visited).wf(),
        grid_rows(old(board)@) == grid_rows(old(visited).shape()),
        grid_cols(old(board)@) == grid_cols(old(visited).shape()),
        same_shape(old(board)@, old(visited).shape()),
    ensures
        final(board).wf(),
        final(visited).wf(),
        final(visited).shape() == old(visited).shape(),
        old(visited).grids().subset_of(final(visited).grids()),
        old(visited).size() <= final(visited).size(),
        r == winnable(old(board)@),
        grid_rows(final(board)@) == grid_rows(old(board)@),
        grid_cols(final(board)@) == grid_cols(old(board)@),
        same_shape(final(board)@, old(board)@),
        final(plays)@.len() >= old(plays)@.len(),
        final(plays)@.take(old(plays)@.len() as int) == old(plays)@,
        r ==> grid_pegs(final(board)@) <= 1,
        r ==> valid_trace(
            old(board)@,
            final(plays)@.skip(old(plays)@.len() as int),
            final(board)@,
        ),
        r ==> trace_of(
            old(board)@,
            dfs_plan(old(board)@),
            final(plays)@.skip(old(plays)@.len() as int),
        ),
        !r ==> final(board)@ == old(board)@ && final(plays)@ == old(plays)@,
        grid_pegs(old(board)@) <= 1 ==> r && final(board)@ == old(board)@ && final(plays)@ == old(
            plays,
        )@ && final(visited).grids() == old(visited).grids(),
    decreases grid_pegs(old(board)@),
{
    let ghost g0 = old(board)@;
    let ghost n0 = old(plays)@.len() as int;
    proof {
        board.lemma_wf_view();
    }
    let count = board.peg_count();
    if count <= 1 {
        proof {
            lemma_winnable_terminal(g0);
            assert(plays@.take(n0) =~= plays@);
            assert(plays@.skip(n0) =~= Seq::<Play>::empty());
            assert(dfs_plan(g0) == Seq::<Jump>::empty());
            assert(trace_of(g0, dfs_plan(g0), plays@.skip(n0)));
        }
        return true;
    }
    if visited.contains(board) {
        proof {
            assert(plays@.take(n0) =~= plays@);
        }
        return false;
    }
    let rows = board.rows();
    let cols = board.cols();
    proof {
        assert(rows <= MAX_CELLS && cols <= MAX_CELLS) by (nonlinear_arith)
            requires
                1 <= rows,
                1 <= cols,
                (rows as int) * (cols as int) <= MAX_CELLS,
        ;
    }
    let mut row: usize = 0;
    while row < rows
        invariant
            row <= rows,
            board.wf(),
            board@ == g0,
            plays@ == old(plays)@,
            visited.wf(),
            visited.shape() == old(visited).shape(),
            old(visited).grids().subset_of(visited.grids()),
            old(visited).size() <= visited.size(),
            no_win_before(g0, row as int, 0, 0),
        decreases rows - row,
    {
        let mut col: usize = 0;
        while col < cols
            invariant
                col <= cols,
                row < rows,
                board.wf(),
                board@ == g0,
                plays@ == old(plays)@,
                visited.wf(),
                visited.shape() == old(visited).shape(),
                old(visited).grids().subset_of(visited.grids()),
                old(visited).size() <= visited.size(),
                no_win_before(g0, row as int, col as int, 0),
            decreases cols - col,
        {
            if board.get(row, col) == Cell::Peg {
                let mut di: usize = 0;
                while di < 6
                    invariant
                        di <= 6,
                        row < rows,
                        col < cols,
                        board.wf(),
                        board@ == g0,
                        plays@ == old(plays)@,
                        visited.wf(),
                        visited.shape() == old(visited).shape(),
                        old(visited).grids().subset_of(visited.grids()),
                        old(visited).size() <= visited.size(),
                        cell_at(g0, row as int, col as int) == Cell::Peg,
                        no_win_before(g0, row as int, col as int, di as int),
                    decreases 6 - di,
                {
                    let direction = direction_from_index(di);
                    proof {
                        lemma_direction_index(direction);
                        assert(direction_index(direction) == di as int);
                        lemma_flat_index(row as int, col as int, rows as int, cols as int);
                    }
                    let index = row * cols + col;
                    let (start, middle, end) = cell_and_direction_to_play(index, cols, direction);
                    let ghost j: Jump = (row as int, col as int, direction);
                    proof {
                        assert(start.0 as int == j.0 && start.1 as int == j.1);
                        assert(middle.0 as int == jump_mid_row(j) && middle.1 as int
                            == jump_mid_col(j));
                        assert(end.0 as int == jump_end_row(j) && end.1 as int == jump_end_col(j));
                    }
                    if let Some(t) = filter_valid_play(board, start, middle, end) {
                        let (s, m, e) = t;
                        proof {
                            assert(jump_legal(g0, j));
                            lemma_jump_apply(g0, j);
                            lemma_same_shape_symm(g0, old(visited).shape());
                            lemma_same_shape_trans(
                                jump_apply(g0, j),
                                old(visited).shape(),
                                g0,
                            );
                            lemma_same_shape_symm(old(visited).shape(), jump_apply(g0, j));
                        }
                        play_move(board, s, m, e);
                        proof {
                            assert(board@ == jump_apply(g0, j));
                        }
                        let snap = board.snapshot();
                        plays.push(Play { start: s, end: e, state: snap });
                        let ghost plays1 = plays@;
                        let solved = solve(board, plays, visited);
                        if solved {
                            proof {
                                lemma_winnable_step(g0, j);
                                assert(plays@.take(n0 + 1) == plays1);
                                assert(plays@.take(n0) =~= plays@.take(n0 + 1).take(n0));
                                assert(plays1.take(n0) =~= old(plays)@);
                                let suffix = plays@.skip(n0);
                                assert(suffix[0] == plays@[n0]);
                                assert(plays@[n0] == plays1[n0]);
                                assert(suffix.drop_first() =~= plays@.skip(n0 + 1));
                                assert(valid_trace(jump_apply(g0, j), plays@.skip(n0 + 1), board@));
                                assert(valid_trace(g0, suffix, board@)) by {
                                    assert(jump_legal(g0, j));
                                    assert(suffix[0].start.0 as int == j.0);
                                    assert(suffix[0].start.1 as int == j.1);
                                    assert(suffix[0].end.0 as int == jump_end_row(j));
                                    assert(suffix[0].end.1 as int == jump_end_col(j));
                                    assert(suffix[0].state@ == jump_apply(g0, j));
                                    assert(valid_trace(
                                        jump_apply(g0, j),
                                        suffix.drop_first(),
                                        board@,
                                    ));
                                };
                                lemma_same_shape_symm(jump_apply(g0, j), g0);
                                lemma_same_shape_trans(board@, g0, jump_apply(g0, j));
                                assert(old(visited).grids().subset_of(visited.grids()));
                                assert(is_first_winning_jump(g0, j)) by {
                                    assert forall|j2: Jump|
                                        jump_legal(g0, j2) && winnable(
                                            jump_apply(g0, j2),
                                        ) implies !scan_lt(j2, j) by {
                                        if scan_lt(j2, j) {
                                            assert(scanned_before(
                                                j2.0,
                                                j2.1,
                                                direction_index(j2.2),
                                                row as int,
                                                col as int,
                                                di as int,
                                            ));
                                            assert(!winnable(jump_apply(g0, j2)));
                                        }
                                    };
                                };
                                let jc = choose|jc: Jump| is_first_winning_jump(g0, jc);
                                lemma_first_winning_jump_unique(g0, jc, j);
                                assert(dfs_plan(g0) == seq![j] + dfs_plan(jump_apply(g0, j)));
                                let js = dfs_plan(g0);
                                assert(js[0] == j);
                                assert(js.drop_first() =~= dfs_plan(jump_apply(g0, j)));
                                assert(trace_of(
                                    jump_apply(g0, j),
                                    dfs_plan(jump_apply(g0, j)),
                                    plays@.skip(n0 + 1),
                                ));
                                assert(trace_of(g0, js, suffix)) by {
                                    assert(suffix.len() == plays@.skip(n0 + 1).len() + 1);
                                    assert(trace_of(
                                        jump_apply(g0, js[0]),
                                        js.drop_first(),
                                        suffix.drop_first(),
                                    ));
                                };
                            }
                            return true;
                        }
                        proof {
                            assert(board@ == jump_apply(g0, j));
                            lemma_jump_cells_distinct(g0, j);
                        }
                        unplay_move(board, s, m, e);
                        proof {
                            lemma_play_unplay_roundtrip(
                                g0,
                                j.0,
                                j.1,
                                jump_mid_row(j),
                                jump_mid_col(j),
                                jump_end_row(j),
                                jump_end_col(j),
                            );
                            assert(board@ == g0);
                        }
                        plays.pop();
                        proof {
                            assert(plays@ =~= old(plays)@);
                            assert(!winnable(jump_apply(g0, j)));
                        }
                    } else {
                        proof {
                            assert(!jump_legal(g0, j));
                        }
                    }
                    proof {
                        assert forall|jj: Jump|
                            jump_legal(g0, jj) && scanned_before(
                                jj.0,
                                jj.1,
                                direction_index(jj.2),
                                row as int,
                                col as int,
                                di as int + 1,
                            ) implies !winnable(jump_apply(g0, jj)) by {
                            if !scanned_before(
                                jj.0,
                                jj.1,
                                direction_index(jj.2),
                                row as int,
                                col as int,
                                di as int,
                            ) {
                                assert(jj.0 == row as int && jj.1 == col as int
                                    && direction_index(jj.2) == di as int);
                                lemma_direction_index(jj.2);
                                assert(jj.2 == direction);
                                assert(jj == j);
                            }
                        };
                        assert(no_win_before(g0, row as int, col as int, di as int + 1));
                    }
                    di += 1;
                }
                proof {
                    assert forall|jj: Jump|
                        jump_legal(g0, jj) && scanned_before(
                            jj.0,
                            jj.1,
                            direction_index(jj.2),
                            row as int,
                            col as int + 1,
                            0,
                        ) implies !winnable(jump_apply(g0, jj)) by {
                        if jj.0 == row as int && jj.1 == col as int {
                            lemma_direction_index(jj.2);
                            assert(scanned_before(
                                jj.0,
                                jj.1,
                                direction_index(jj.2),
                                row as int,
                                col as int,
                                6,
                            ));
                        }
                    };
                    assert(no_win_before(g0, row as int, col as int + 1, 0));
                }
            } else {
                proof {
                    assert(cell_at(g0, row as int, col as int) != Cell::Peg);
                    assert forall|jj: Jump|
                        jump_legal(g0, jj) && scanned_before(
                            jj.0,
                            jj.1,
                            direction_index(jj.2),
                            row as int,
                            col as int + 1,
                            0,
                        ) implies !winnable(jump_apply(g0, jj)) by {
                        if jj.0 == row as int && jj.1 == col as int {
                            assert(!jump_legal(g0, jj));
                        }
                    };
                    assert(no_win_before(g0, row as int, col as int + 1, 0));
                }
            }
            col += 1;
        }
        proof {
            assert forall|jj: Jump|
                jump_legal(g0, jj) && scanned_before(
                    jj.0,
                    jj.1,
                    direction_index(jj.2),
                    row as int + 1,
                    0,
                    0,
                ) implies !winnable(jump_apply(g0, jj)) by {
                if jj.0 == row as int {
                    assert(in_grid(g0, jj.0, jj.1));
                    assert(scanned_before(
                        jj.0,
                        jj.1,
                        direction_index(jj.2),
                        row as int,
                        cols as int,
                        0,
                    ));
                }
            };
            assert(no_win_before(g0, row as int + 1, 0, 0));
        }
        row += 1;
    }
    proof {
        assert forall|jj: Jump| #[trigger] jump_legal(g0, jj) implies !winnable(
            jump_apply(g0, jj),
        ) by {
            assert(in_grid(g0, jj.0, jj.1));
            assert(scanned_before(jj.0, jj.1, direction_index(jj.2), rows as int, 0, 0));
        };
        lemma_unwinnable_cut(g0);
    }
    visited.insert(board);
    proof {
        assert(plays@.take(n0) =~= plays@);
    }
    false
}

} // verus!
