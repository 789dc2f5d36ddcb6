//! What it means to solve a grid, and the facts about solutions that the
//! search rests on.

use vstd::prelude::*;
use crate::codec::lemma_cell_index;
use crate::grid::{
    col_line, cross_valid, cross_valid_simple, empties_before, extends, grid_full, grid_valid,
    grid_valid_simple, is_symbol, lemma_same_grid, row_line, solves, square, twin_lines,
    twins_at, with_cell, BinoxCell,
};
use crate::line::{count_true, lemma_line_valid_subset};
use crate::presolve::{lemma_cell_of, obeys, sweep, sweep_cell};

verus! {

/// No grid solves `g`.
pub open spec fn no_solution(g: Seq<Seq<BinoxCell>>) -> bool {
    forall|h: Seq<Seq<BinoxCell>>| !#[trigger] solves(g, h)
}

/// `a` solves `g`, and nothing else does.
pub open spec fn only_solution(g: Seq<Seq<BinoxCell>>, a: Seq<Seq<BinoxCell>>) -> bool {
    solves(g, a) && forall|h: Seq<Seq<BinoxCell>>| #[trigger] solves(g, h) ==> h == a
}

/// `g` has exactly one solution.
pub open spec fn unique(g: Seq<Seq<BinoxCell>>) -> bool {
    exists|a: Seq<Seq<BinoxCell>>| only_solution(g, a)
}

/// `g` has at least two solutions.
pub open spec fn two_solutions(g: Seq<Seq<BinoxCell>>) -> bool {
    exists|a: Seq<Seq<BinoxCell>>, b: Seq<Seq<BinoxCell>>|
        #![trigger solves(g, a), solves(g, b)]
        solves(g, a) && solves(g, b) && a != b
}

/// A grid that keeps the symbols of a grid that keeps the symbols of `a`
/// keeps the symbols of `a`.
pub proof fn lemma_extends_trans(
    a: Seq<Seq<BinoxCell>>,
    b: Seq<Seq<BinoxCell>>,
    c: Seq<Seq<BinoxCell>>,
)
    requires
        extends(a, b),
        extends(b, c),
    ensures
        extends(a, c),
{
    assert forall|r: int, k: int|
        0 <= r < a.len() && 0 <= k < a.len() && is_symbol(#[trigger] a[r][k]) implies c[r][k]
        == a[r][k] by {
        assert(b[r][k] == a[r][k]);
        assert(is_symbol(b[r][k]));
    }
}

/// The lines of a grid are set only where the lines of a grid that extends
/// it are set.
proof fn lemma_lines_subset(g: Seq<Seq<BinoxCell>>, h: Seq<Seq<BinoxCell>>, i: int, s: BinoxCell)
    requires
        square(g, g.len()),
        extends(g, h),
        0 <= i < g.len(),
        is_symbol(s),
    ensures
        forall|k: int|
            0 <= k < g.len() ==> (row_line(g, i, s)[k] ==> #[trigger] row_line(h, i, s)[k]),
        forall|k: int|
            0 <= k < g.len() ==> (col_line(g, i, s)[k] ==> #[trigger] col_line(h, i, s)[k]),
{
    assert forall|k: int| 0 <= k < g.len() && row_line(g, i, s)[k] implies #[trigger] row_line(
        h,
        i,
        s,
    )[k] by {
        assert(is_symbol(g[i][k]));
    }
    assert forall|k: int| 0 <= k < g.len() && col_line(g, i, s)[k] implies #[trigger] col_line(
        h,
        i,
        s,
    )[k] by {
        assert(is_symbol(g[k][i]));
    }
}

/// Row `i` and column `i` of a grid obey the line rules where those of a
/// grid that extends it do, and a line that holds half of its positions is
/// the same in both.
proof fn lemma_cross_downward(g: Seq<Seq<BinoxCell>>, h: Seq<Seq<BinoxCell>>, i: int)
    requires
        square(g, g.len()),
        extends(g, h),
        0 <= i < g.len(),
    ensures
        cross_valid_simple(h, i) ==> cross_valid_simple(g, i),
        cross_valid(h, i) ==> cross_valid(g, i),
        cross_valid_simple(h, i) ==> forall|s: BinoxCell|
            is_symbol(s) ==> (count_true(#[trigger] row_line(g, i, s)) == g.len() / 2
                ==> row_line(g, i, s) == row_line(h, i, s)) && (count_true(col_line(g, i, s))
                == g.len() / 2 ==> col_line(g, i, s) == col_line(h, i, s)),
{
    let x = BinoxCell::X;
    let o = BinoxCell::O;
    lemma_lines_subset(g, h, i, x);
    lemma_lines_subset(g, h, i, o);
    lemma_line_valid_subset(row_line(g, i, x), row_line(h, i, x));
    lemma_line_valid_subset(row_line(g, i, o), row_line(h, i, o));
    lemma_line_valid_subset(col_line(g, i, x), col_line(h, i, x));
    lemma_line_valid_subset(col_line(g, i, o), col_line(h, i, o));
}

/// Whatever a valid grid extends is valid: filling cells never mends a
/// broken rule.
pub proof fn lemma_valid_downward(g: Seq<Seq<BinoxCell>>, h: Seq<Seq<BinoxCell>>)
    requires
        square(g, g.len()),
        extends(g, h),
    ensures
        grid_valid_simple(h) ==> grid_valid_simple(g),
        grid_valid(h) ==> grid_valid(g),
{
    let x = BinoxCell::X;
    let o = BinoxCell::O;
    if grid_valid_simple(h) {
        assert forall|i: int| 0 <= i < g.len() implies #[trigger] cross_valid_simple(g, i) by {
            assert(cross_valid_simple(h, i));
            lemma_cross_downward(g, h, i);
        }
    }
    if grid_valid(h) {
        assert forall|i: int| 0 <= i < g.len() implies #[trigger] cross_valid(g, i) by {
            assert(cross_valid(h, i));
            lemma_cross_downward(g, h, i);
        }
        assert forall|i: int, j: int| 0 <= i < j < g.len() implies !#[trigger] twins_at(
            g,
            i,
            j,
        ) by {
            assert(cross_valid(h, i));
            assert(cross_valid(h, j));
            assert(!twins_at(h, i, j));
            lemma_cross_downward(g, h, i);
            lemma_cross_downward(g, h, j);
            assert(is_symbol(x) && is_symbol(o));
            if twin_lines(row_line(g, i, x), row_line(g, j, x)) {
                assert(twin_lines(row_line(h, i, x), row_line(h, j, x)));
            }
            if twin_lines(row_line(g, i, o), row_line(g, j, o)) {
                assert(twin_lines(row_line(h, i, o), row_line(h, j, o)));
            }
            if twin_lines(col_line(g, i, x), col_line(g, j, x)) {
                assert(twin_lines(col_line(h, i, x), col_line(h, j, x)));
            }
            if twin_lines(col_line(g, i, o), col_line(g, j, o)) {
                assert(twin_lines(col_line(h, i, o), col_line(h, j, o)));
            }
        }
    }
}

/// A full grid is solved by itself alone, and only if it is valid.
pub proof fn lemma_full_solution(g: Seq<Seq<BinoxCell>>, h: Seq<Seq<BinoxCell>>)
    requires
        square(g, g.len()),
        grid_full(g),
    ensures
        solves(g, g) == grid_valid(g),
        solves(g, h) ==> h == g,
{
    if solves(g, h) {
        assert forall|r: int, c: int| 0 <= r < g.len() && 0 <= c < g.len()
            implies #[trigger] h[r][c]
            == g[r][c] by {
            assert(is_symbol(g[r][c]));
        }
        lemma_same_grid(h, g, g.len());
    }
}

/// An invalid grid has no solution.
pub proof fn lemma_invalid_no_solution(g: Seq<Seq<BinoxCell>>)
    requires
        square(g, g.len()),
        !grid_valid(g),
    ensures
        no_solution(g),
{
    assert forall|h: Seq<Seq<BinoxCell>>| !#[trigger] solves(g, h) by {
        if solves(g, h) {
            lemma_valid_downward(g, h);
        }
    }
}

/// Writing a symbol into an empty cell gives a grid that extends the old
/// one.
pub proof fn lemma_fill_extends(g: Seq<Seq<BinoxCell>>, r: int, c: int, s: BinoxCell)
    requires
        square(g, g.len()),
        0 <= r < g.len(),
        0 <= c < g.len(),
        g[r][c] == BinoxCell::EMPTY,
    ensures
        square(with_cell(g, r, c, s), g.len()),
        extends(g, with_cell(g, r, c, s)),
{
}

/// The solutions of a grid with an empty cell are those of the grid with
/// `X` there and those of the grid with `O` there, and no grid is both.
pub proof fn lemma_branch(g: Seq<Seq<BinoxCell>>, r: int, c: int, h: Seq<Seq<BinoxCell>>)
    requires
        square(g, g.len()),
        0 <= r < g.len(),
        0 <= c < g.len(),
        g[r][c] == BinoxCell::EMPTY,
    ensures
        solves(g, h) == (solves(with_cell(g, r, c, BinoxCell::X), h) || solves(
            with_cell(g, r, c, BinoxCell::O),
            h,
        )),
        solves(with_cell(g, r, c, BinoxCell::X), h) ==> h[r][c] == BinoxCell::X,
        solves(with_cell(g, r, c, BinoxCell::O), h) ==> h[r][c] == BinoxCell::O,
{
    let gx = with_cell(g, r, c, BinoxCell::X);
    let go = with_cell(g, r, c, BinoxCell::O);
    lemma_fill_extends(g, r, c, BinoxCell::X);
    lemma_fill_extends(g, r, c, BinoxCell::O);
    if solves(gx, h) {
        lemma_extends_trans(g, gx, h);
        assert(is_symbol(gx[r][c]));
    }
    if solves(go, h) {
        lemma_extends_trans(g, go, h);
        assert(is_symbol(go[r][c]));
    }
    if solves(g, h) {
        assert(is_symbol(h[r][c]));
        if h[r][c] == BinoxCell::X {
            assert forall|i: int, k: int|
                0 <= i < g.len() && 0 <= k < g.len() && is_symbol(#[trigger] gx[i][k])
                    implies h[i][k]
                == gx[i][k] by {
                if !(i == r && k == c) {
                    assert(is_symbol(g[i][k]));
                }
            }
        } else {
            assert forall|i: int, k: int|
                0 <= i < g.len() && 0 <= k < g.len() && is_symbol(#[trigger] go[i][k])
                    implies h[i][k]
                == go[i][k] by {
                if !(i == r && k == c) {
                    assert(is_symbol(g[i][k]));
                }
            }
        }
    }
}

/// What a sweep does at one cell extends the grid, and loses no solution:
/// where the grid has a solution the sweep goes on, and the solution solves
/// what it leaves.
pub proof fn lemma_sweep_cell(
    g: Seq<Seq<BinoxCell>>,
    r: int,
    c: int,
    strict: bool,
    h: Seq<Seq<BinoxCell>>,
)
    requires
        square(g, g.len()),
        0 <= r < g.len(),
        0 <= c < g.len(),
    ensures
        square(sweep_cell(g, r, c, strict).0, g.len()),
        extends(g, sweep_cell(g, r, c, strict).0),
        solves(g, h) ==> sweep_cell(g, r, c, strict).1 && solves(
            sweep_cell(g, r, c, strict).0,
            h,
        ),
{
    if g[r][c] == BinoxCell::EMPTY {
        let gx = with_cell(g, r, c, BinoxCell::X);
        let go = with_cell(g, r, c, BinoxCell::O);
        lemma_fill_extends(g, r, c, BinoxCell::X);
        lemma_fill_extends(g, r, c, BinoxCell::O);
        if solves(g, h) {
            lemma_branch(g, r, c, h);
            if solves(gx, h) {
                lemma_valid_downward(gx, h);
                assert(obeys(gx, strict)) by {
                    lemma_strict_is_simple(h);
                }
                if solves(go, h) {
                    assert(false);
                }
            } else {
                lemma_valid_downward(go, h);
                assert(obeys(go, strict)) by {
                    lemma_strict_is_simple(h);
                }
            }
        }
    }
}

/// A grid that obeys the full rule obeys the simple line rule.
pub proof fn lemma_strict_is_simple(g: Seq<Seq<BinoxCell>>)
    requires
        grid_valid(g),
    ensures
        grid_valid_simple(g),
{
    assert forall|i: int| 0 <= i < g.len() implies #[trigger] cross_valid_simple(g, i) by {
        assert(cross_valid(g, i));
    }
}

/// A sweep extends the grid and loses no solution: where the grid has a
/// solution the sweep comes through, and the solution solves what it
/// leaves.
pub proof fn lemma_sweep(g: Seq<Seq<BinoxCell>>, k: nat, strict: bool, h: Seq<Seq<BinoxCell>>)
    requires
        square(g, g.len()),
        k <= g.len() * g.len(),
    ensures
        square(sweep(g, k, strict).0, g.len()),
        extends(g, sweep(g, k, strict).0),
        solves(g, h) ==> sweep(g, k, strict).1 && solves(sweep(g, k, strict).0, h),
        solves(sweep(g, k, strict).0, h) ==> solves(g, h),
    decreases k,
{
    if k > 0 {
        let n = g.len() as int;
        assert(n > 0) by (nonlinear_arith)
            requires
                0 < k <= n * n,
                0 <= n,
        ;
        lemma_sweep(g, (k - 1) as nat, strict, h);
        let before = sweep(g, (k - 1) as nat, strict);
        lemma_cell_of(n, k - 1);
        if before.1 {
            lemma_sweep_cell(before.0, (k - 1) / n, (k - 1) % n, strict, h);
            lemma_extends_trans(g, before.0, sweep(g, k, strict).0);
        }
    }
    if solves(sweep(g, k, strict).0, h) {
        lemma_extends_trans(g, sweep(g, k, strict).0, h);
    }
}

/// A grid that extends another leaves no more cells empty, among the first
/// `k`.
pub proof fn lemma_empties_extends(g: Seq<Seq<BinoxCell>>, h: Seq<Seq<BinoxCell>>, k: nat)
    requires
        square(g, g.len()),
        extends(g, h),
        k <= g.len() * g.len(),
    ensures
        empties_before(h, k) <= empties_before(g, k),
    decreases k,
{
    if k > 0 {
        let n = g.len() as int;
        assert(n > 0) by (nonlinear_arith)
            requires
                0 < k <= n * n,
                0 <= n,
        ;
        lemma_empties_extends(g, h, (k - 1) as nat);
        lemma_cell_of(n, k - 1);
        let r = (k - 1) / n;
        let c = (k - 1) % n;
        if h[r][c] == BinoxCell::EMPTY && g[r][c] != BinoxCell::EMPTY {
            assert(is_symbol(g[r][c]));
        }
    }
}

/// Writing a symbol into an empty cell leaves one empty cell less, once the
/// count has passed that cell.
pub proof fn lemma_empties_fill(g: Seq<Seq<BinoxCell>>, r: int, c: int, s: BinoxCell, k: nat)
    requires
        square(g, g.len()),
        0 <= r < g.len(),
        0 <= c < g.len(),
        g[r][c] == BinoxCell::EMPTY,
        is_symbol(s),
        k <= g.len() * g.len(),
    ensures
        empties_before(with_cell(g, r, c, s), k) + (if r * g.len() + c < k {
            1int
        } else {
            0int
        }) == empties_before(g, k),
    decreases k,
{
    if k > 0 {
        let n = g.len() as int;
        assert(n > 0) by (nonlinear_arith)
            requires
                0 < k <= n * n,
                0 <= n,
        ;
        lemma_empties_fill(g, r, c, s, (k - 1) as nat);
        lemma_cell_of(n, k - 1);
        lemma_cell_index(n, r, c);
    }
}

/// Whatever solves a grid solves every grid that the grid extends: taking
/// symbols away loses no solution.
pub proof fn lemma_solves_downward(
    g: Seq<Seq<BinoxCell>>,
    h: Seq<Seq<BinoxCell>>,
    a: Seq<Seq<BinoxCell>>,
)
    requires
        extends(g, h),
        solves(h, a),
    ensures
        solves(g, a),
{
    lemma_extends_trans(g, h, a);
}

/// Emptying a cell gives a grid that the old one extends.
pub proof fn lemma_clear_extends(g: Seq<Seq<BinoxCell>>, r: int, c: int)
    requires
        square(g, g.len()),
        0 <= r < g.len(),
        0 <= c < g.len(),
    ensures
        square(with_cell(g, r, c, BinoxCell::EMPTY), g.len()),
        extends(with_cell(g, r, c, BinoxCell::EMPTY), g),
{
}

/// A grid with a solution and no two solutions has that one solution.
pub proof fn lemma_single(g: Seq<Seq<BinoxCell>>, a: Seq<Seq<BinoxCell>>)
    requires
        solves(g, a),
        !two_solutions(g),
    ensures
        only_solution(g, a),
{
    assert forall|h: Seq<Seq<BinoxCell>>| #[trigger] solves(g, h) implies h == a by {
        if h != a {
            assert(solves(g, a) && solves(g, h) && a != h);
        }
    }
}

/// A grid has two solutions where a grid that extends it has.
pub proof fn lemma_two_solutions_downward(g: Seq<Seq<BinoxCell>>, h: Seq<Seq<BinoxCell>>)
    requires
        extends(g, h),
        two_solutions(h),
    ensures
        two_solutions(g),
{
    let (a, b) = choose|a: Seq<Seq<BinoxCell>>, b: Seq<Seq<BinoxCell>>|
        #![trigger solves(h, a), solves(h, b)]
        solves(h, a) && solves(h, b) && a != b;
    lemma_solves_downward(g, h, a);
    lemma_solves_downward(g, h, b);
    assert(solves(g, a) && solves(g, b) && a != b);
}

} // verus!
