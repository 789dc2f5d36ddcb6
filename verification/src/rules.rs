//! The rules of the puzzle, tested on a board.

use vstd::prelude::*;
use crate::board::Binox;
use crate::grid::{
    blank_grid, col_line, cross_valid, cross_valid_simple, grid_full, grid_valid,
        grid_valid_simple, is_symbol,
    lines_valid, no_twins, row_full, row_line, twins_at, BinoxCell,
};
use crate::line::{
    count_true, lemma_count_bound, lemma_count_disjoint, lemma_count_full, lemma_count_zero,
};
use crate::row::{lemma_same_data, BinRow};

verus! {

/// A row counts as many symbols as it is long exactly when none of its cells
/// is empty.
pub proof fn lemma_row_full(g: Seq<Seq<BinoxCell>>, r: int)
    requires
        0 <= r < g.len(),
        g[r].len() == g.len(),
    ensures
        count_true(row_line(g, r, BinoxCell::X)) + count_true(row_line(g, r, BinoxCell::O))
            <= g.len(),
        (count_true(row_line(g, r, BinoxCell::X)) + count_true(row_line(g, r, BinoxCell::O))
            == g.len()) == row_full(g, r),
{
    let x = row_line(g, r, BinoxCell::X);
    let o = row_line(g, r, BinoxCell::O);
    let u = Seq::new(x.len(), |i: int| x[i] || o[i]);
    lemma_count_disjoint(x, o);
    lemma_count_full(u);
    lemma_count_bound(u);
    if row_full(g, r) {
        assert forall|i: int| 0 <= i < u.len() implies u[i] by {
            assert(is_symbol(g[r][i]));
        }
    }
    if count_true(u) == u.len() {
        assert forall|c: int| 0 <= c < g.len() implies is_symbol(#[trigger] g[r][c]) by {
            assert(u[c]);
        }
    }
}

/// In a valid grid, a row that holds a symbol on exactly half of its cells
/// shares that pattern with no other row, and a column with no other column.
pub proof fn lemma_half_lines_distinct(g: Seq<Seq<BinoxCell>>, i: int, j: int, s: BinoxCell)
    requires
        grid_valid(g),
        0 <= i < g.len(),
        0 <= j < g.len(),
        i != j,
        is_symbol(s),
    ensures
        count_true(row_line(g, i, s)) == g.len() / 2 ==> row_line(g, i, s) != row_line(g, j, s),
        count_true(col_line(g, i, s)) == g.len() / 2 ==> col_line(g, i, s) != col_line(g, j, s),
{
    if i < j {
        assert(!twins_at(g, i, j));
    } else {
        assert(!twins_at(g, j, i));
    }
}

/// A blank grid of an allowed size is valid and not full.
pub proof fn lemma_blank_grid(n: nat)
    requires
        4 <= n,
    ensures
        grid_valid(blank_grid(n)),
        grid_valid_simple(blank_grid(n)),
        !grid_full(blank_grid(n)),
{
    let g = blank_grid(n);
    let z = Seq::new(n, |i: int| false);
    lemma_count_zero(z);
    assert forall|i: int| 0 <= i < n implies row_line(g, i, BinoxCell::X) == z && row_line(
        g,
        i,
        BinoxCell::O,
    ) == z && col_line(g, i, BinoxCell::X) == z && col_line(g, i, BinoxCell::O) == z by {
        assert(row_line(g, i, BinoxCell::X) =~= z);
        assert(row_line(g, i, BinoxCell::O) =~= z);
        assert(col_line(g, i, BinoxCell::X) =~= z);
        assert(col_line(g, i, BinoxCell::O) =~= z);
    }
    assert forall|i: int| 0 <= i < g.len() implies #[trigger] cross_valid(g, i)
        && cross_valid_simple(g, i) by {
        assert(row_line(g, i, BinoxCell::X) == z);
    }
    assert forall|i: int, j: int| 0 <= i < j < g.len() implies !#[trigger] twins_at(g, i, j) by {
        assert(row_line(g, i, BinoxCell::X) == z);
    }
    assert(!is_symbol(g[0][0]));
}

/// Lines `a` and `b` are twins: the same bits, on half of the width.
fn are_twins(a: BinRow, b: BinRow) -> (r: bool)
    requires
        a.wf(),
        b.wf(),
        a.size == b.size,
    ensures
        r == crate::grid::twin_lines(a@, b@),
{
    proof {
        lemma_same_data(a, b);
    }
    a.data == b.data && a.count == a.size / 2
}

impl Binox {
    /// Whether every row and every column obeys the simple line rule, for
    /// both symbols.
    pub fn is_valid_simple(&self) -> (r: bool)
        requires
            self.wf(),
        ensures
            r == grid_valid_simple(self@),
    {
        let n = self.size();
        let mut i: u8 = 0;
        while i < n
            invariant
                self.wf(),
                n == self.spec_size(),
                i <= n,
                forall|k: int| 0 <= k < i ==> #[trigger] cross_valid_simple(self@, k),
            decreases n - i,
        {
            if !(self.x_row(i).is_valid_simple() && self.o_row(i).is_valid_simple() && self.x_col(
                i,
            ).is_valid_simple() && self.o_col(i).is_valid_simple()) {
                assert(!cross_valid_simple(self@, i as int));
                return false;
            }
            i += 1;
        }
        true
    }

    /// Whether the board obeys the full rule: every row and every column
    /// obeys the strict line rule for both symbols, and no two rows and no
    /// two columns are twins.
    pub fn is_valid(&self) -> (r: bool)
        requires
            self.wf(),
        ensures
            r == grid_valid(self@),
    {
        let n = self.size();
        let mut i: u8 = 0;
        while i < n
            invariant
                self.wf(),
                n == self.spec_size(),
                i <= n,
                forall|k: int| 0 <= k < i ==> #[trigger] cross_valid(self@, k),
            decreases n - i,
        {
            if !(self.x_row(i).is_valid() && self.o_row(i).is_valid() && self.x_col(i).is_valid()
                && self.o_col(i).is_valid()) {
                assert(!cross_valid(self@, i as int));
                return false;
            }
            i += 1;
        }
        assert(lines_valid(self@));
        let mut i: u8 = 0;
        while i < n
            invariant
                self.wf(),
                n == self.spec_size(),
                i <= n,
                forall|a: int, b: int| 0 <= a < i && a < b < n
                    ==> !#[trigger] twins_at(self@, a, b),
            decreases n - i,
        {
            let mut j: u8 = i + 1;
            while j < n
                invariant
                    self.wf(),
                    n == self.spec_size(),
                    i < n,
                    i < j <= n,
                    forall|a: int, b: int|
                        0 <= a < i && a < b < n ==> !#[trigger] twins_at(self@, a, b),
                    forall|b: int| i < b < j ==> !#[trigger] twins_at(self@, i as int, b),
                decreases n - j,
            {
                if are_twins(self.x_row(i), self.x_row(j)) || are_twins(
                    self.o_row(i),
                    self.o_row(j),
                ) || are_twins(self.x_col(i), self.x_col(j)) || are_twins(
                    self.o_col(i),
                    self.o_col(j),
                ) {
                    assert(twins_at(self@, i as int, j as int));
                    return false;
                }
                j += 1;
            }
            i += 1;
        }
        assert(no_twins(self@));
        true
    }

    /// Whether no cell is empty.
    pub fn is_full(&self) -> (r: bool)
        requires
            self.wf(),
        ensures
            r == grid_full(self@),
    {
        let n = self.size();
        let mut i: u8 = 0;
        while i < n
            invariant
                self.wf(),
                n == self.spec_size(),
                i <= n,
                forall|k: int| 0 <= k < i ==> #[trigger] row_full(self@, k),
            decreases n - i,
        {
            proof {
                lemma_row_full(self@, i as int);
            }
            if self.x_row(i).count + self.o_row(i).count != n {
                proof {
                    let c = choose|c: int| 0 <= c < n && !is_symbol(#[trigger] self@[i as int][c]);
                    assert(!is_symbol(self@[i as int][c]));
                }
                return false;
            }
            i += 1;
        }
        proof {
            assert forall|r: int, c: int| 0 <= r < n && 0 <= c < n implies is_symbol(
                #[trigger] self@[r][c],
            ) by {
                assert(row_full(self@, r));
            }
        }
        true
    }

    /// Whether the board is full and obeys the full rule.
    pub fn is_solved(&self) -> (r: bool)
        requires
            self.wf(),
        ensures
            r == (grid_full(self@) && grid_valid(self@)),
    {
        self.is_full() && self.is_valid()
    }
}

} // verus!
