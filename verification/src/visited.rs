use vstd::prelude::*;

use std::collections::HashSet;

use vstd::arithmetic::power2::{
    lemma2_to64, lemma_pow2_strictly_increases, lemma_pow2_unfold, pow2,
};

use crate::board::{
    grid_cols, grid_pegs, grid_rows, grid_wf, lemma_flat_index, lemma_flat_index_decompose,
    lemma_same_shape_trans, peg_bit, same_shape, Board, Cell, Grid, MAX_CELLS,
};
use crate::solver::winnable;

verus! {

broadcast use vstd::std_specs::hash::group_hash_axioms;

/// The binary code of a flat sequence of cells, one bit per cell: 1 for a
/// peg, 0 for a hole or an absent cell, earlier cells in higher bits.
pub open spec fn peg_code(s: Seq<Cell>) -> nat
    decreases s.len(),
{
    if s.len() == 0 {
        0
    } else {
        2 * peg_code(s.drop_last()) + peg_bit(s.last())
    }
}

/// A grid's cells flattened in row-major order.
pub open spec fn grid_flat(g: Grid) -> Seq<Cell> {
    Seq::new(
        (grid_rows(g) * grid_cols(g)) as nat,
        |i: int| g[i / grid_cols(g)][i % grid_cols(g)],
    )
}

/// The code a whole grid is stored under in the dead-end cache.
pub open spec fn grid_code(g: Grid) -> nat {
    peg_code(grid_flat(g))
}

proof fn lemma_peg_code_bound(s: Seq<Cell>)
    ensures
        peg_code(s) < pow2(s.len()),
    decreases s.len(),
{
    if s.len() == 0 {
        lemma2_to64();
    } else {
        lemma_peg_code_bound(s.drop_last());
        lemma_pow2_unfold(s.len());
    }
}

/// Two cell sequences of the same length, absent in the same places, with
/// the same code, are the same sequence: the code loses nothing but the
/// hole/absent distinction, which the shared shape supplies.
proof fn lemma_peg_code_injective(a: Seq<Cell>, b: Seq<Cell>)
    requires
        a.len() == b.len(),
        forall|i: int|
            0 <= i < a.len() ==> ((#[trigger] a[i]) == Cell::Absent <==> b[i] == Cell::Absent),
        peg_code(a) == peg_code(b),
    ensures
        a == b,
    decreases a.len(),
{
    if a.len() == 0 {
        assert(a =~= b);
    } else {
        let n = a.len() - 1;
        assert(peg_bit(a.last()) <= 1 && peg_bit(b.last()) <= 1);
        assert(peg_bit(a.last()) == peg_bit(b.last()));
        assert(peg_code(a.drop_last()) == peg_code(b.drop_last()));
        assert(a[n] == a.last() && b[n] == b.last());
        assert(a.last() == b.last()) by {
            if peg_bit(a.last()) != 1 {
                assert(a.last() != Cell::Peg && b.last() != Cell::Peg);
                assert(a[n] == Cell::Absent <==> b[n] == Cell::Absent);
            }
        };
        assert forall|i: int|
            0 <= i < a.drop_last().len() implies ((#[trigger] a.drop_last()[i]) == Cell::Absent
            <==> b.drop_last()[i] == Cell::Absent) by {
            assert(a.drop_last()[i] == a[i]);
            assert(b.drop_last()[i] == b[i]);
        };
        lemma_peg_code_injective(a.drop_last(), b.drop_last());
        assert forall|i: int| 0 <= i < a.len() implies a[i] == b[i] by {
            if i < n {
                assert(a[i] == a.drop_last()[i]);
                assert(b[i] == b.drop_last()[i]);
            }
        };
        assert(a =~= b);
    }
}

/// Two same-shaped grids with the same code are the same grid.
proof fn lemma_grid_code_injective(a: Grid, b: Grid)
    requires
        grid_wf(a),
        grid_wf(b),
        grid_rows(a) == grid_rows(b),
        grid_cols(a) == grid_cols(b),
        same_shape(a, b),
        grid_code(a) == grid_code(b),
    ensures
        a == b,
{
    let rows = grid_rows(a);
    let cols = grid_cols(a);
    let fa = grid_flat(a);
    let fb = grid_flat(b);
    assert(fa.len() == fb.len());
    assert forall|i: int|
        0 <= i < fa.len() implies ((#[trigger] fa[i]) == Cell::Absent <==> fb[i]
        == Cell::Absent) by {
        lemma_flat_index_decompose(i, rows, cols);
        let r = i / cols;
        let c = i % cols;
        assert(a[r].len() == cols && b[r].len() == cols);
        assert(fa[i] == a[r][c] && fb[i] == b[r][c]);
        assert(a[r][c] == Cell::Absent <==> b[r][c] == Cell::Absent);
    };
    lemma_peg_code_injective(fa, fb);
    assert forall|r: int, c: int| 0 <= r < rows && 0 <= c < cols implies a[r][c] == b[r][c] by {
        lemma_flat_index(r, c, rows, cols);
        assert(fa[r * cols + c] == a[r][c]);
        assert(fb[r * cols + c] == b[r][c]);
    };
    assert forall|r: int| 0 <= r < rows implies a[r] =~= b[r] by {
        assert(a[r].len() == cols && b[r].len() == cols);
    };
    assert(a =~~= b);
}

/// Pack a board into its 64-bit code, scanning cells in row-major order.
#[verifier::loop_isolation(false)]
fn encode(board: &Board) -> (k: u64)
    requires
        board.wf(),
    ensures
        k as nat == grid_code(board@),
{
    proof {
        board.lemma_wf_view();
        lemma2_to64();
    }
    let rows = board.rows();
    let cols = board.cols();
    let ghost g = board@;
    let ghost flat = grid_flat(g);
    proof {
        assert(flat.take(0) =~= Seq::<Cell>::empty());
        assert((0 as int) * (cols as int) == 0) by (nonlinear_arith);
    }
    let mut code: u64 = 0;
    let mut r: usize = 0;
    while r < rows
        invariant
            r <= rows,
            code as nat == peg_code(flat.take((r as int) * (cols as int))),
        decreases rows - r,
    {
        let mut c: usize = 0;
        while c < cols
            invariant
                c <= cols,
                r < rows,
                code as nat == peg_code(flat.take((r as int) * (cols as int) + (c as int))),
            decreases cols - c,
        {
            proof {
                lemma_flat_index(r as int, c as int, rows as int, cols as int);
                let n = (r as int) * (cols as int) + (c as int);
                assert(n < rows as int * cols as int <= MAX_CELLS);
                assert(flat[n] == g[r as int][c as int]);
                assert(flat.take(n + 1).drop_last() =~= flat.take(n));
                assert(flat.take(n + 1).last() == flat[n]);
                assert(flat.take(n).len() == n);
                lemma_peg_code_bound(flat.take(n));
                lemma_pow2_unfold((n + 1) as nat);
                if n + 1 < 64 {
                    lemma_pow2_strictly_increases((n + 1) as nat, 64);
                }
                assert(pow2((n + 1) as nat) <= pow2(64));
                assert(2 * (code as nat) + 1 < pow2((n + 1) as nat));
                assert(2 * (code as nat) + 1 < 0x10000000000000000);
            }
            let cell = board.get(r, c);
            let bit: u64 = if cell == Cell::Peg {
                1
            } else {
                0
            };
            code = code * 2 + bit;
            c += 1;
        }
        proof {
            assert(((r + 1) as int) * (cols as int) == (r as int) * (cols as int) + (cols as int))
                by (nonlinear_arith);
        }
        r += 1;
    }
    proof {
        assert(flat.take((rows as int) * (cols as int)) =~= flat);
    }
    code
}

/// The memoized set of dead ends: board configurations proven unable to
/// reach a one-peg state. Each board is stored as its 64-bit code; a ghost
/// map remembers which grid each stored code stands for, and the set's
/// invariant certifies that every recorded grid really is unwinnable, so
/// pruning on a hit never cuts off a solvable line.
pub struct VisitedSet {
    codes: HashSet<u64>,
    shape: Ghost<Grid>,
    boards: Ghost<Map<u64, Grid>>,
}

impl VisitedSet {
    /// The shape every stored board shares: that of the board the search
    /// started from.
    pub closed spec fn shape(self) -> Grid {
        self.shape@
    }

    /// The set of grids recorded as dead ends.
    pub closed spec fn grids(self) -> Set<Grid> {
        Set::new(
            |g: Grid|
                exists|k: u64| #[trigger] self.boards@.dom().contains(k) && self.boards@[k] == g,
        )
    }

    /// Number of recorded dead ends.
    pub closed spec fn size(self) -> nat {
        self.codes@.len()
    }

    /// The cache invariant: every stored code is the code of a well-formed,
    /// unwinnable board of the common shape holding at least two pegs.
    pub closed spec fn wf(self) -> bool {
        &&& grid_wf(self.shape@)
        &&& grid_rows(self.shape@) * grid_cols(self.shape@) <= MAX_CELLS
        &&& self.codes@.finite()
        &&& self.codes@ == self.boards@.dom()
        &&& forall|k: u64|
            #[trigger] self.boards@.dom().contains(k) ==> {
                let g = self.boards@[k];
                &&& grid_wf(g)
                &&& grid_rows(g) == grid_rows(self.shape@)
                &&& grid_cols(g) == grid_cols(self.shape@)
                &&& same_shape(g, self.shape@)
                &&& grid_code(g) == k as nat
                &&& grid_pegs(g) >= 2
                &&& !winnable(g)
            }
    }

    /// A fresh, empty cache for searches on boards shaped like this one.
    pub fn new(board: &Board) -> (s: VisitedSet)
        requires
            board.wf(),
        ensures
            s.wf(),
            s.shape() == board@,
            s.grids() == Set::<Grid>::empty(),
            s.size() == 0,
    {
        proof {
            board.lemma_wf_view();
        }
        let codes: HashSet<u64> = HashSet::new();
        let s = VisitedSet { codes, shape: Ghost(board@), boards: Ghost(Map::empty()) };
        proof {
            assert(s.codes@ =~= s.boards@.dom());
            assert(s.grids() =~= Set::<Grid>::empty());
        }
        s
    }

    /// Whether this exact board is recorded as a dead end. A hit certifies,
    /// through the cache invariant, that the board is unwinnable.
    pub fn contains(&self, board: &Board) -> (r: bool)
        requires
            self.wf(),
            board.wf(),
            grid_rows(board@) == grid_rows(self.shape()),
            grid_cols(board@) == grid_cols(self.shape()),
            same_shape(board@, self.shape()),
        ensures
            r == self.grids().contains(board@),
            r ==> !winnable(board@),
    {
        proof {
            board.lemma_wf_view();
        }
        let code = encode(board);
        let r = self.codes.contains(&code);
        proof {
            if r {
                assert(self.boards@.dom().contains(code));
                let g = self.boards@[code];
                lemma_same_shape_trans(g, board@, self.shape@);
                lemma_grid_code_injective(g, board@);
                assert(self.grids().contains(board@));
            } else {
                if self.grids().contains(board@) {
                    let k = choose|k: u64|
                        self.boards@.dom().contains(k) && self.boards@[k] == board@;
                    assert(grid_code(board@) == k as nat);
                    assert(self.codes@.contains(k));
                    assert(false);
                }
            }
        }
        r
    }

    /// Record a board as a dead end.
    pub fn insert(&mut self, board: &Board)
        requires
            old(self).wf(),
            board.wf(),
            grid_rows(board@) == grid_rows(old(self).shape()),
            grid_cols(board@) == grid_cols(old(self).shape()),
            same_shape(board@, old(self).shape()),
            grid_pegs(board@) >= 2,
            !winnable(board@),
        ensures
            final(self).wf(),
            final(self).shape() == old(self).shape(),
            final(self).grids() == old(self).grids().insert(board@),
            final(self).size() == old(self).size() + (if old(self).grids().contains(board@) {
                0int
            } else {
                1int
            }),
    {
        proof {
            board.lemma_wf_view();
        }
        let code = encode(board);
        self.codes.insert(code);
        proof {
            self.boards@ = old(self).boards@.insert(code, board@);
            assert(self.codes@ =~= self.boards@.dom());
            assert forall|k: u64| #[trigger] self.boards@.dom().contains(k) implies {
                let g = self.boards@[k];
                &&& grid_wf(g)
                &&& grid_rows(g) == grid_rows(self.shape@)
                &&& grid_cols(g) == grid_cols(self.shape@)
                &&& same_shape(g, self.shape@)
                &&& grid_code(g) == k as nat
                &&& grid_pegs(g) >= 2
                &&& !winnable(g)
            } by {
                if k != code {
                    assert(old(self).boards@.dom().contains(k));
                    assert(self.boards@[k] == old(self).boards@[k]);
                }
            };
            assert forall|g: Grid| #[trigger] self.grids().contains(g) implies old(
                self,
            ).grids().insert(board@).contains(g) by {
                let k = choose|k: u64| self.boards@.dom().contains(k) && self.boards@[k] == g;
                if k != code {
                    assert(old(self).boards@.dom().contains(k) && old(self).boards@[k] == g);
                    assert(old(self).grids().contains(g));
                }
            };
            assert forall|g: Grid| old(self).grids().insert(board@).contains(g) implies #[trigger]
                self.grids().contains(g) by {
                if g == board@ {
                    assert(self.boards@.dom().contains(code) && self.boards@[code] == g);
                } else {
                    let k = choose|k: u64|
                        old(self).boards@.dom().contains(k) && old(self).boards@[k] == g;
                    assert(grid_code(g) == k as nat);
                    if k == code {
                        lemma_same_shape_trans(g, board@, self.shape@);
                        lemma_grid_code_injective(g, board@);
                    }
                    assert(self.boards@.dom().contains(k) && self.boards@[k] == g);
                }
            };
            assert(self.grids() =~= old(self).grids().insert(board@));
            assert(old(self).codes@.contains(code) <==> old(self).grids().contains(board@)) by {
                if old(self).codes@.contains(code) {
                    assert(old(self).boards@.dom().contains(code));
                    let g = old(self).boards@[code];
                    lemma_same_shape_trans(g, board@, self.shape@);
                    lemma_grid_code_injective(g, board@);
                } else {
                    if old(self).grids().contains(board@) {
                        let k = choose|k: u64|
                            old(self).boards@.dom().contains(k) && old(self).boards@[k] == board@;
                        assert(grid_code(board@) == k as nat);
                        assert(k == code);
                    }
                }
            };
            assert(self.codes@ == old(self).codes@.insert(code));
        }
    }

    /// How many dead ends have been recorded so far.
    pub fn len(&self) -> (n: usize)
        requires
            self.wf(),
        ensures
            n == self.size(),
    {
        self.codes.len()
    }
}

} // verus!
