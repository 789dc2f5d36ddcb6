//! The mathematical model of a board: a square grid of cells, and the rules
//! of the puzzle stated over it.

use vstd::prelude::*;
use crate::line::{count_true, line_valid, line_valid_simple};

verus! {

/// What one cell of the board holds.
#[derive(Clone, Copy, Debug, PartialEq, Eq, Structural)]
pub enum BinoxCell {
    X,
    O,
    EMPTY,
}

/// `cell` is one of the two symbols.
pub open spec fn is_symbol(cell: BinoxCell) -> bool {
    cell != BinoxCell::EMPTY
}

/// `g` has `n` rows of `n` entries each.
pub open spec fn square<T>(g: Seq<Seq<T>>, n: nat) -> bool {
    &&& g.len() == n
    &&& forall|r: int| 0 <= r < n ==> (#[trigger] g[r]).len() == n
}

/// Two square grids of one side that agree cell by cell are the same.
pub proof fn lemma_same_grid<T>(a: Seq<Seq<T>>, b: Seq<Seq<T>>, n: nat)
    requires
        square(a, n),
        square(b, n),
        forall|r: int, c: int| 0 <= r < n && 0 <= c < n ==> #[trigger] a[r][c] == b[r][c],
    ensures
        a == b,
{
    assert forall|r: int| 0 <= r < n implies #[trigger] a[r] == b[r] by {
        assert forall|c: int| 0 <= c < n implies a[r][c] == b[r][c] by {
            assert(a[r][c] == b[r][c]);
        }
        assert(a[r] =~= b[r]);
    }
    assert(a =~= b);
}

/// Where symbol `s` stands along row `r` of `g`.
pub open spec fn row_line(g: Seq<Seq<BinoxCell>>, r: int, s: BinoxCell) -> Seq<bool> {
    Seq::new(g.len(), |c: int| g[r][c] == s)
}

/// Where symbol `s` stands along column `c` of `g`.
pub open spec fn col_line(g: Seq<Seq<BinoxCell>>, c: int, s: BinoxCell) -> Seq<bool> {
    Seq::new(g.len(), |r: int| g[r][c] == s)
}

/// Row `i` and column `i` of `g` obey the simple line rule, for both
/// symbols.
pub open spec fn cross_valid_simple(g: Seq<Seq<BinoxCell>>, i: int) -> bool {
    &&& line_valid_simple(row_line(g, i, BinoxCell::X))
    &&& line_valid_simple(row_line(g, i, BinoxCell::O))
    &&& line_valid_simple(col_line(g, i, BinoxCell::X))
    &&& line_valid_simple(col_line(g, i, BinoxCell::O))
}

/// Row `i` and column `i` of `g` obey the strict line rule, for both
/// symbols.
pub open spec fn cross_valid(g: Seq<Seq<BinoxCell>>, i: int) -> bool {
    &&& line_valid(row_line(g, i, BinoxCell::X))
    &&& line_valid(row_line(g, i, BinoxCell::O))
    &&& line_valid(col_line(g, i, BinoxCell::X))
    &&& line_valid(col_line(g, i, BinoxCell::O))
}

/// Every row and every column of `g` obeys the simple line rule, for both
/// symbols.
pub open spec fn grid_valid_simple(g: Seq<Seq<BinoxCell>>) -> bool {
    forall|i: int| 0 <= i < g.len() ==> #[trigger] cross_valid_simple(g, i)
}

/// Every row and every column of `g` obeys the strict line rule, for both
/// symbols.
pub open spec fn lines_valid(g: Seq<Seq<BinoxCell>>) -> bool {
    forall|i: int| 0 <= i < g.len() ==> #[trigger] cross_valid(g, i)
}

/// Line `a` holds its symbol on exactly half of its positions, and line `b`
/// holds it on the very same positions.
pub open spec fn twin_lines(a: Seq<bool>, b: Seq<bool>) -> bool {
    a == b && count_true(a) == a.len() / 2
}

/// Rows `i` and `j` of `g`, or columns `i` and `j`, are twins for one of the
/// two symbols.
pub open spec fn twins_at(g: Seq<Seq<BinoxCell>>, i: int, j: int) -> bool {
    ||| twin_lines(row_line(g, i, BinoxCell::X), row_line(g, j, BinoxCell::X))
    ||| twin_lines(row_line(g, i, BinoxCell::O), row_line(g, j, BinoxCell::O))
    ||| twin_lines(col_line(g, i, BinoxCell::X), col_line(g, j, BinoxCell::X))
    ||| twin_lines(col_line(g, i, BinoxCell::O), col_line(g, j, BinoxCell::O))
}

/// No two rows and no two columns of `g` are twins, for either symbol.
pub open spec fn no_twins(g: Seq<Seq<BinoxCell>>) -> bool {
    forall|i: int, j: int| 0 <= i < j < g.len() ==> !#[trigger] twins_at(g, i, j)
}

/// The full rule: every line is strictly valid and no two lines of one
/// direction are twins.
pub open spec fn grid_valid(g: Seq<Seq<BinoxCell>>) -> bool {
    lines_valid(g) && no_twins(g)
}

/// No cell of row `r` of `g` is empty.
pub open spec fn row_full(g: Seq<Seq<BinoxCell>>, r: int) -> bool {
    forall|c: int| 0 <= c < g.len() ==> is_symbol(#[trigger] g[r][c])
}

/// No cell of `g` is empty.
pub open spec fn grid_full(g: Seq<Seq<BinoxCell>>) -> bool {
    forall|r: int, c: int|
        0 <= r < g.len() && 0 <= c < g.len() ==> is_symbol(#[trigger] g[r][c])
}

/// The number of empty cells among the first `k` cells of `g`, counted row
/// by row.
pub open spec fn empties_before(g: Seq<Seq<BinoxCell>>, k: nat) -> nat
    decreases k,
{
    if k == 0 || g.len() == 0 {
        0
    } else {
        let r = (k - 1) / (g.len() as int);
        let c = (k - 1) % (g.len() as int);
        empties_before(g, (k - 1) as nat) + if g[r][c] == BinoxCell::EMPTY {
            1nat
        } else {
            0nat
        }
    }
}

/// The number of empty cells of `g`.
pub open spec fn empties(g: Seq<Seq<BinoxCell>>) -> nat {
    empties_before(g, g.len() * g.len())
}

/// `h` has the shape of `g` and keeps every symbol that `g` holds.
pub open spec fn extends(g: Seq<Seq<BinoxCell>>, h: Seq<Seq<BinoxCell>>) -> bool {
    &&& square(h, g.len())
    &&& forall|r: int, c: int|
        0 <= r < g.len() && 0 <= c < g.len() && is_symbol(#[trigger] g[r][c]) ==> h[r][c]
            == g[r][c]
}

/// `h` solves `g`: it keeps the symbols of `g`, leaves no cell empty and
/// obeys the full rule.
pub open spec fn solves(g: Seq<Seq<BinoxCell>>, h: Seq<Seq<BinoxCell>>) -> bool {
    extends(g, h) && grid_full(h) && grid_valid(h)
}

/// `g` with the cell in row `r`, column `c` replaced by `cell`.
pub open spec fn with_cell(g: Seq<Seq<BinoxCell>>, r: int, c: int, cell: BinoxCell) -> Seq<
    Seq<BinoxCell>,
> {
    g.update(r, g[r].update(c, cell))
}

/// Every cell that `m` marks holds a symbol in `g`.
pub open spec fn marks_on_symbols(g: Seq<Seq<BinoxCell>>, m: Seq<Seq<bool>>) -> bool {
    forall|r: int, c: int|
        0 <= r < g.len() && 0 <= c < g.len() && #[trigger] m[r][c] ==> is_symbol(g[r][c])
}

/// The square grid of side `n` with every cell empty.
pub open spec fn blank_grid(n: nat) -> Seq<Seq<BinoxCell>> {
    Seq::new(n, |r: int| Seq::new(n, |c: int| BinoxCell::EMPTY))
}

/// The square overlay of side `n` with no cell marked.
pub open spec fn blank_marks(n: nat) -> Seq<Seq<bool>> {
    Seq::new(n, |r: int| Seq::new(n, |c: int| false))
}

} // verus!
