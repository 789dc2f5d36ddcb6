//! The clues of a puzzle: which cells two grids tell apart, which symbols a
//! puzzle can do without, and what filling cells from the solution keeps.

use vstd::prelude::*;
use crate::codec::lemma_cell_index;
use crate::grid::{
    cross_valid, extends, grid_full, grid_valid, is_symbol, lemma_same_grid, row_full, row_line,
    solves, square, with_cell, BinoxCell,
};
use crate::line::{count_true, lemma_count_update};
use crate::presolve::{lemma_cell_of, presolved};
use crate::rules::lemma_row_full;
use crate::solutions::{
    lemma_clear_extends, lemma_extends_trans, lemma_single, lemma_solves_downward, lemma_sweep,
    lemma_two_solutions_downward, only_solution, two_solutions,
};

verus! {

/// The cells among the first `k` of a grid of side `n`, counted row by row,
/// that `f` picks, in that order.
pub open spec fn cells_where(n: nat, k: nat, f: spec_fn(int, int) -> bool) -> Seq<(u8, u8)>
    decreases k,
{
    if k == 0 || n == 0 {
        Seq::empty()
    } else {
        let r = (k - 1) / (n as int);
        let c = (k - 1) % (n as int);
        let before = cells_where(n, (k - 1) as nat, f);
        if f(r, c) {
            before.push((r as u8, c as u8))
        } else {
            before
        }
    }
}

/// The cells in which the grids `g` and `h` differ, row by row.
pub open spec fn differing_cells(g: Seq<Seq<BinoxCell>>, h: Seq<Seq<BinoxCell>>) -> Seq<(u8, u8)> {
    cells_where(g.len(), g.len() * g.len(), |r: int, c: int| g[r][c] != h[r][c])
}

/// The empty cells of `g`, row by row.
pub open spec fn empty_cells(g: Seq<Seq<BinoxCell>>) -> Seq<(u8, u8)> {
    cells_where(g.len(), g.len() * g.len(), |r: int, c: int| g[r][c] == BinoxCell::EMPTY)
}

/// `cells_where` lists cells of the grid that `f` picks, and every such
/// cell among the first `k`.
pub proof fn lemma_cells_where(n: nat, k: nat, f: spec_fn(int, int) -> bool)
    requires
        0 < n <= 16,
        k <= n * n,
    ensures
        forall|i: int|
            0 <= i < cells_where(n, k, f).len() ==> {
                let cell = #[trigger] cells_where(n, k, f)[i];
                cell.0 < n && cell.1 < n && f(cell.0 as int, cell.1 as int) && cell.0 * n
                    + cell.1 < k
            },
        forall|r: int, c: int|
            0 <= r < n && 0 <= c < n && r * n + c < k && #[trigger] f(r, c) ==> cells_where(
                n,
                k,
                f,
            ).contains((r as u8, c as u8)),
    decreases k,
{
    if k > 0 {
        lemma_cells_where(n, (k - 1) as nat, f);
        lemma_cell_of(n as int, k - 1);
        let r0 = (k - 1) / (n as int);
        let c0 = (k - 1) % (n as int);
        let before = cells_where(n, (k - 1) as nat, f);
        let now = cells_where(n, k, f);
        assert forall|r: int, c: int|
            0 <= r < n && 0 <= c < n && r * n + c < k && #[trigger] f(r, c) implies now.contains(
            (r as u8, c as u8),
        ) by {
            if r * n + c == k - 1 {
                lemma_cell_index(n as int, r, c);
                assert(now[now.len() - 1] == (r as u8, c as u8));
            } else {
                assert(before.contains((r as u8, c as u8)));
                let i = choose|i: int| 0 <= i < before.len() && before[i] == (r as u8, c as u8);
                assert(now[i] == (r as u8, c as u8));
            }
        }
    }
}

/// The cell in row `r`, column `c` of `g` holds a symbol that the puzzle
/// does not give, and that one strict sweep writes back once the cell is
/// emptied.
pub open spec fn forced_back(g: Seq<Seq<BinoxCell>>, m: Seq<Seq<bool>>, r: int, c: int) -> bool {
    &&& is_symbol(g[r][c])
    &&& !m[r][c]
    &&& presolved(with_cell(g, r, c, BinoxCell::EMPTY), true).0[r][c] == g[r][c]
}

/// The cell in row `r`, column `c` of `g` holds a symbol that the puzzle
/// does not give, and without which the grid still has no two solutions.
pub open spec fn spare(g: Seq<Seq<BinoxCell>>, m: Seq<Seq<bool>>, r: int, c: int) -> bool {
    &&& is_symbol(g[r][c])
    &&& !m[r][c]
    &&& !two_solutions(with_cell(g, r, c, BinoxCell::EMPTY))
}

/// `g` after the local minimization has passed its first `k` cells, row by
/// row: each cell that is forced back at its turn has been emptied.
pub open spec fn locally_minimized(g: Seq<Seq<BinoxCell>>, m: Seq<Seq<bool>>, k: nat) -> Seq<
    Seq<BinoxCell>,
>
    decreases k,
{
    if k == 0 {
        g
    } else {
        let before = locally_minimized(g, m, (k - 1) as nat);
        let r = (k - 1) / (g.len() as int);
        let c = (k - 1) % (g.len() as int);
        if forced_back(before, m, r, c) {
            with_cell(before, r, c, BinoxCell::EMPTY)
        } else {
            before
        }
    }
}

/// `g` after the perfect minimization has passed its first `k` cells, row
/// by row: each cell that is spare at its turn has been emptied.
pub open spec fn perfectly_minimized(g: Seq<Seq<BinoxCell>>, m: Seq<Seq<bool>>, k: nat) -> Seq<
    Seq<BinoxCell>,
>
    decreases k,
{
    if k == 0 {
        g
    } else {
        let before = perfectly_minimized(g, m, (k - 1) as nat);
        let r = (k - 1) / (g.len() as int);
        let c = (k - 1) % (g.len() as int);
        if spare(before, m, r, c) {
            with_cell(before, r, c, BinoxCell::EMPTY)
        } else {
            before
        }
    }
}

/// No symbol that the puzzle does not give can be taken from `g` without a
/// second solution appearing.
pub open spec fn irreducible(g: Seq<Seq<BinoxCell>>, m: Seq<Seq<bool>>) -> bool {
    forall|r: int, c: int|
        0 <= r < g.len() && 0 <= c < g.len() && is_symbol(#[trigger] g[r][c]) && !m[r][c]
            ==> two_solutions(with_cell(g, r, c, BinoxCell::EMPTY))
}

/// Emptying a cell that is forced back keeps the one solution.
pub proof fn lemma_forced_back(
    g: Seq<Seq<BinoxCell>>,
    m: Seq<Seq<bool>>,
    r: int,
    c: int,
    a: Seq<Seq<BinoxCell>>,
)
    requires
        square(g, g.len()),
        0 <= r < g.len(),
        0 <= c < g.len(),
        forced_back(g, m, r, c),
        only_solution(g, a),
    ensures
        only_solution(with_cell(g, r, c, BinoxCell::EMPTY), a),
{
    let cleared = with_cell(g, r, c, BinoxCell::EMPTY);
    let n = g.len();
    lemma_clear_extends(g, r, c);
    lemma_solves_downward(cleared, g, a);
    assert forall|h: Seq<Seq<BinoxCell>>| #[trigger] solves(cleared, h) implies h == a by {
        lemma_sweep(cleared, n * n, true, h);
        let p = presolved(cleared, true).0;
        assert(solves(p, h));
        assert(is_symbol(p[r][c]));
        assert(h[r][c] == g[r][c]);
        assert forall|i: int, j: int|
            0 <= i < n && 0 <= j < n && is_symbol(#[trigger] g[i][j]) implies h[i][j]
            == g[i][j] by {
            if !(i == r && j == c) {
                assert(is_symbol(cleared[i][j]));
            }
        }
        assert(solves(g, h));
    }
}

/// The local minimization keeps the shape of the grid, only takes symbols
/// away, and keeps the one solution.
pub proof fn lemma_locally_minimized(
    g: Seq<Seq<BinoxCell>>,
    m: Seq<Seq<bool>>,
    k: nat,
    a: Seq<Seq<BinoxCell>>,
)
    requires
        square(g, g.len()),
        k <= g.len() * g.len(),
    ensures
        square(locally_minimized(g, m, k), g.len()),
        extends(locally_minimized(g, m, k), g),
        only_solution(g, a) ==> only_solution(locally_minimized(g, m, k), a),
    decreases k,
{
    if k > 0 {
        let n = g.len() as int;
        assert(n > 0) by (nonlinear_arith)
            requires
                0 < k <= n * n,
                0 <= n,
        ;
        lemma_locally_minimized(g, m, (k - 1) as nat, a);
        lemma_cell_of(n, k - 1);
        let before = locally_minimized(g, m, (k - 1) as nat);
        let r = (k - 1) / n;
        let c = (k - 1) % n;
        if forced_back(before, m, r, c) {
            lemma_clear_extends(before, r, c);
            lemma_extends_trans(with_cell(before, r, c, BinoxCell::EMPTY), before, g);
            if only_solution(g, a) {
                lemma_forced_back(before, m, r, c, a);
            }
        }
    }
}

/// The perfect minimization keeps the shape of the grid, only takes symbols
/// away, keeps the one solution, and leaves no cell that it has passed
/// spare.
pub proof fn lemma_perfectly_minimized(
    g: Seq<Seq<BinoxCell>>,
    m: Seq<Seq<bool>>,
    k: nat,
    a: Seq<Seq<BinoxCell>>,
)
    requires
        square(g, g.len()),
        k <= g.len() * g.len(),
    ensures
        square(perfectly_minimized(g, m, k), g.len()),
        extends(perfectly_minimized(g, m, k), g),
        only_solution(g, a) ==> only_solution(perfectly_minimized(g, m, k), a),
        forall|r: int, c: int|
            0 <= r < g.len() && 0 <= c < g.len() && r * g.len() + c < k && is_symbol(
                #[trigger] perfectly_minimized(g, m, k)[r][c],
            ) && !m[r][c] ==> two_solutions(
                with_cell(perfectly_minimized(g, m, k), r, c, BinoxCell::EMPTY),
            ),
    decreases k,
{
    if k > 0 {
        let n = g.len() as int;
        assert(n > 0) by (nonlinear_arith)
            requires
                0 < k <= n * n,
                0 <= n,
        ;
        lemma_perfectly_minimized(g, m, (k - 1) as nat, a);
        lemma_cell_of(n, k - 1);
        let before = perfectly_minimized(g, m, (k - 1) as nat);
        let now = perfectly_minimized(g, m, k);
        let r0 = (k - 1) / n;
        let c0 = (k - 1) % n;
        lemma_clear_extends(before, r0, c0);
        if spare(before, m, r0, c0) {
            lemma_extends_trans(now, before, g);
            if only_solution(g, a) {
                lemma_solves_downward(now, before, a);
                lemma_single(now, a);
            }
        }
        assert forall|r: int, c: int|
            0 <= r < n && 0 <= c < n && r * n + c < k && is_symbol(#[trigger] now[r][c])
                && !m[r][c] implies two_solutions(with_cell(now, r, c, BinoxCell::EMPTY)) by {
            if r * n + c == k - 1 {
                lemma_cell_index(n, r, c);
                assert(r == r0 && c == c0);
                assert(!spare(before, m, r0, c0));
            } else {
                assert(is_symbol(before[r][c]));
                assert(two_solutions(with_cell(before, r, c, BinoxCell::EMPTY)));
                if spare(before, m, r0, c0) {
                    let x = with_cell(now, r, c, BinoxCell::EMPTY);
                    let y = with_cell(before, r, c, BinoxCell::EMPTY);
                    assert(extends(x, y)) by {
                        assert forall|i: int, j: int|
                            0 <= i < n && 0 <= j < n && is_symbol(#[trigger] x[i][j])
                                implies y[i][j]
                            == x[i][j] by {}
                    }
                    lemma_two_solutions_downward(x, y);
                }
            }
        }
    }
}

/// In a full and valid grid of even side each row holds `X` on half of its
/// cells.
pub proof fn lemma_full_valid_rows(g: Seq<Seq<BinoxCell>>, r: int)
    requires
        square(g, g.len()),
        g.len() % 2 == 0,
        grid_full(g),
        grid_valid(g),
        0 <= r < g.len(),
    ensures
        count_true(row_line(g, r, BinoxCell::X)) == g.len() / 2,
{
    lemma_row_full(g, r);
    assert(cross_valid(g, r));
    assert(row_full(g, r)) by {
        assert forall|c: int| 0 <= c < g.len() implies is_symbol(#[trigger] g[r][c]) by {}
    }
}

/// A grid from which no symbol can be taken without a second solution
/// appearing, and none of whose cells is given, is not full.
pub proof fn lemma_irreducible_not_full(g: Seq<Seq<BinoxCell>>, m: Seq<Seq<bool>>)
    requires
        square(g, g.len()),
        g.len() > 0,
        g.len() % 2 == 0,
        irreducible(g, m),
        !m[0][0],
    ensures
        !grid_full(g),
{
    if grid_full(g) {
        let n = g.len();
        let cleared = with_cell(g, 0, 0, BinoxCell::EMPTY);
        assert(is_symbol(g[0][0]));
        assert(two_solutions(cleared));
        let (a, b) = choose|a: Seq<Seq<BinoxCell>>, b: Seq<Seq<BinoxCell>>|
            #![trigger solves(cleared, a), solves(cleared, b)]
            solves(cleared, a) && solves(cleared, b) && a != b;
        assert forall|r: int, c: int| 0 <= r < n && 0 <= c < n && !(r == 0 && c == 0)
            implies a[r][c]
            == #[trigger] b[r][c] by {
            assert(is_symbol(cleared[r][c]));
        }
        if a[0][0] == b[0][0] {
            assert forall|r: int, c: int| 0 <= r < n && 0 <= c < n implies #[trigger] a[r][c]
                == b[r][c] by {
                if !(r == 0 && c == 0) {
                    assert(a[r][c] == b[r][c]);
                }
            }
            lemma_same_grid(a, b, n);
        }
        assert(is_symbol(a[0][0]) && is_symbol(b[0][0]));
        lemma_full_valid_rows(a, 0);
        lemma_full_valid_rows(b, 0);
        let la = row_line(a, 0, BinoxCell::X);
        let lb = row_line(b, 0, BinoxCell::X);
        assert(lb =~= la.update(0, lb[0])) by {
            assert forall|c: int| 0 <= c < n implies lb[c] == la.update(0, lb[0])[c] by {
                if c != 0 {
                    assert(a[0][c] == b[0][c]);
                }
            }
        }
        lemma_count_update(la, 0, lb[0]);
        assert(la[0] != lb[0]);
    }
}

/// `g` with the first `k` of `cells` filled from the grid `s`.
pub open spec fn copied_from(
    g: Seq<Seq<BinoxCell>>,
    s: Seq<Seq<BinoxCell>>,
    cells: Seq<(u8, u8)>,
    k: nat,
) -> Seq<Seq<BinoxCell>>
    decreases k,
{
    if k == 0 {
        g
    } else {
        let cell = cells[k - 1];
        with_cell(
            copied_from(g, s, cells, (k - 1) as nat),
            cell.0 as int,
            cell.1 as int,
            s[cell.0 as int][cell.1 as int],
        )
    }
}

/// Filling cells from the one solution of a grid keeps that solution the
/// only one.
pub proof fn lemma_copied_from(
    g: Seq<Seq<BinoxCell>>,
    a: Seq<Seq<BinoxCell>>,
    cells: Seq<(u8, u8)>,
    k: nat,
)
    requires
        square(g, g.len()),
        only_solution(g, a),
        k <= cells.len(),
        forall|i: int| 0 <= i < cells.len()
            ==> (#[trigger] cells[i]).0 < g.len() && cells[i].1 < g.len(),
    ensures
        square(copied_from(g, a, cells, k), g.len()),
        extends(g, copied_from(g, a, cells, k)),
        only_solution(copied_from(g, a, cells, k), a),
    decreases k,
{
    if k > 0 {
        lemma_copied_from(g, a, cells, (k - 1) as nat);
        let before = copied_from(g, a, cells, (k - 1) as nat);
        let now = copied_from(g, a, cells, k);
        let cell = cells[k - 1];
        let r = cell.0 as int;
        let c = cell.1 as int;
        let n = g.len();
        assert(cell.0 < n && cell.1 < n);
        assert forall|i: int, j: int|
            0 <= i < n && 0 <= j < n && is_symbol(#[trigger] before[i][j]) implies now[i][j]
            == before[i][j] by {
            if i == r && j == c {
                assert(a[i][j] == before[i][j]);
            }
        }
        assert(extends(before, now));
        lemma_extends_trans(g, before, now);
        assert forall|i: int, j: int|
            0 <= i < n && 0 <= j < n && is_symbol(#[trigger] now[i][j]) implies a[i][j]
            == now[i][j] by {
            if !(i == r && j == c) {
                assert(is_symbol(before[i][j]));
            }
        }
        assert(solves(now, a));
        assert forall|h: Seq<Seq<BinoxCell>>| #[trigger] solves(now, h) implies h == a by {
            lemma_extends_trans(before, now, h);
            assert(solves(before, h));
        }
    }
}

} // verus!
