//! One sweep over the board that fills every cell whose symbol the rules
//! force, given the board as the sweep finds it.

use vstd::prelude::*;
use crate::board::Binox;
use crate::codec::lemma_cell_index;
use crate::grid::{grid_valid, grid_valid_simple, square, with_cell, BinoxCell};

verus! {

/// How a sweep ended: `Good` when it came to the last cell, `Bad` when it
/// met a cell that can hold neither symbol.
#[derive(Clone, Copy, Debug, PartialEq, Eq, Structural)]
pub enum PresolveResult {
    Good,
    Bad,
}

/// The rule that a sweep tests with: the full rule when `strict`, else the
/// simple line rule.
pub open spec fn obeys(g: Seq<Seq<BinoxCell>>, strict: bool) -> bool {
    if strict {
        grid_valid(g)
    } else {
        grid_valid_simple(g)
    }
}

/// What a sweep does at the cell in row `r`, column `c`: the grid it leaves,
/// and whether it may go on. A cell that holds a symbol is passed over. An
/// empty cell is tried with each symbol: where exactly one obeys the rule it
/// is written, where both do the cell stays empty, and where neither does
/// the cell stays empty and the sweep ends.
pub open spec fn sweep_cell(g: Seq<Seq<BinoxCell>>, r: int, c: int, strict: bool) -> (
    Seq<Seq<BinoxCell>>,
    bool,
) {
    if g[r][c] != BinoxCell::EMPTY {
        (g, true)
    } else {
        let with_x = with_cell(g, r, c, BinoxCell::X);
        let with_o = with_cell(g, r, c, BinoxCell::O);
        let x_valid = obeys(with_x, strict);
        let o_valid = obeys(with_o, strict);
        if x_valid && !o_valid {
            (with_x, true)
        } else if !x_valid && o_valid {
            (with_o, true)
        } else {
            (g, x_valid || o_valid)
        }
    }
}

/// The sweep over the first `k` cells of `g`, row by row: the grid it
/// leaves, and whether it came through. Once a cell has ended the sweep,
/// nothing changes any more.
pub open spec fn sweep(g: Seq<Seq<BinoxCell>>, k: nat, strict: bool) -> (
    Seq<Seq<BinoxCell>>,
    bool,
)
    decreases k,
{
    if k == 0 {
        (g, true)
    } else {
        let before = sweep(g, (k - 1) as nat, strict);
        if !before.1 {
            before
        } else {
            let n = g.len() as int;
            sweep_cell(before.0, (k - 1) / n, (k - 1) % n, strict)
        }
    }
}

/// The sweep over the whole of `g`.
pub open spec fn presolved(g: Seq<Seq<BinoxCell>>, strict: bool) -> (Seq<Seq<BinoxCell>>, bool) {
    sweep(g, g.len() * g.len(), strict)
}

/// A sweep keeps the shape of the grid.
pub proof fn lemma_sweep_square(g: Seq<Seq<BinoxCell>>, k: nat, strict: bool)
    requires
        square(g, g.len()),
        k <= g.len() * g.len(),
    ensures
        square(sweep(g, k, strict).0, g.len()),
    decreases k,
{
    if k > 0 {
        lemma_sweep_square(g, (k - 1) as nat, strict);
        let n = g.len() as int;
        assert(n > 0) by (nonlinear_arith)
            requires
                0 < k <= n * n,
                0 <= n,
        ;
        lemma_cell_of(n, k - 1);
    }
}

/// Cell number `k` of a grid of side `n` lies in row `k / n`, column `k % n`.
pub proof fn lemma_cell_of(n: int, k: int)
    requires
        0 < n,
        0 <= k < n * n,
    ensures
        0 <= k / n < n,
        0 <= k % n < n,
        k == (k / n) * n + k % n,
{
    vstd::arithmetic::div_mod::lemma_fundamental_div_mod(k, n);
    vstd::arithmetic::div_mod::lemma_div_pos_is_pos(k, n);
    vstd::arithmetic::div_mod::lemma_mod_bound(k, n);
    let q = k / n;
    if q >= n {
        assert(q * n >= n * n) by (nonlinear_arith)
            requires
                q >= n,
                n > 0,
        ;
        assert(n * q == q * n) by (nonlinear_arith);
    }
    assert(n * q == q * n) by (nonlinear_arith);
}

/// A sweep that a cell has ended stays as it is, however far it is asked to
/// go.
pub proof fn lemma_sweep_stopped(g: Seq<Seq<BinoxCell>>, k: nat, m: nat, strict: bool)
    requires
        k <= m,
        !sweep(g, k, strict).1,
    ensures
        sweep(g, m, strict) == sweep(g, k, strict),
    decreases m,
{
    if k < m {
        lemma_sweep_stopped(g, k, (m - 1) as nat, strict);
    }
}

impl Binox {
    /// Whether the board obeys the rule that a sweep tests with.
    fn obeys(&self, strict: bool) -> (r: bool)
        requires
            self.wf(),
        ensures
            r == obeys(self@, strict),
    {
        if strict {
            self.is_valid()
        } else {
            self.is_valid_simple()
        }
    }

    /// What a sweep does at one cell.
    fn presolve_cell(&mut self, row: u8, col: u8, strict: bool) -> (r: PresolveResult)
        requires
            old(self).wf(),
            row < old(self).spec_size(),
            col < old(self).spec_size(),
        ensures
            final(self).wf(),
            final(self).spec_size() == old(self).spec_size(),
            final(self).givens() == old(self).givens(),
            (final(self)@, r is Good) == sweep_cell(old(self)@, row as int, col as int, strict),
    {
        if self.get_cell(row, col).unwrap() == BinoxCell::EMPTY {
            self.set_x(row, col).unwrap();
            let x_valid = self.obeys(strict);
            self.set_o(row, col).unwrap();
            let o_valid = self.obeys(strict);
            proof {
                let g = old(self)@;
                let with_x = with_cell(g, row as int, col as int, BinoxCell::X);
                assert(with_cell(with_x, row as int, col as int, BinoxCell::O) =~~= with_cell(
                    g,
                    row as int,
                    col as int,
                    BinoxCell::O,
                ));
                assert(with_cell(self@, row as int, col as int, BinoxCell::X) =~~= with_x);
                assert(with_cell(self@, row as int, col as int, BinoxCell::EMPTY) =~~= g);
            }
            match (x_valid, o_valid) {
                (true, false) => self.set_x(row, col).unwrap(),
                (false, true) => self.set_o(row, col).unwrap(),
                (false, false) => {
                    self.set_empty(row, col).unwrap();
                    return PresolveResult::Bad;
                },
                (true, true) => self.set_empty(row, col).unwrap(),
            }
            proof {
                if !x_valid && o_valid {
                    assert(with_cell(
                        with_cell(old(self)@, row as int, col as int, BinoxCell::O),
                        row as int,
                        col as int,
                        BinoxCell::O,
                    ) =~~= with_cell(old(self)@, row as int, col as int, BinoxCell::O));
                }
            }
        }
        PresolveResult::Good
    }

    /// One sweep over all cells, row by row, testing with the full rule when
    /// `strict` and with the simple line rule otherwise.
    pub fn presolve_with(&mut self, strict: bool) -> (r: PresolveResult)
        requires
            old(self).wf(),
        ensures
            final(self).wf(),
            final(self).spec_size() == old(self).spec_size(),
            final(self).givens() == old(self).givens(),
            (final(self)@, r is Good) == presolved(old(self)@, strict),
    {
        let size = self.size();
        let ghost n = size as int;
        let ghost g = self@;
        let mut row: u8 = 0;
        while row < size
            invariant
                self.wf(),
                self.spec_size() == size,
                old(self).spec_size() == size,
                self.givens() == old(self).givens(),
                n == size,
                g == old(self)@,
                g.len() == n,
                row <= size,
                0 <= row * n <= n * n,
                (self@, true) == sweep(g, (row * n) as nat, strict),
            decreases size - row,
        {
            let mut col: u8 = 0;
            proof {
                assert(0 <= row * n && row * n + n <= n * n) by (nonlinear_arith)
                    requires
                        0 <= row < n,
                ;
            }
            while col < size
                invariant
                    self.wf(),
                    self.spec_size() == size,
                    old(self).spec_size() == size,
                    self.givens() == old(self).givens(),
                    n == size,
                    g == old(self)@,
                    g.len() == n,
                    row < size,
                    col <= size,
                    0 <= row * n && row * n + n <= n * n,
                    (self@, true) == sweep(g, (row * n + col) as nat, strict),
                decreases size - col,
            {
                proof {
                    lemma_cell_index(n, row as int, col as int);
                }
                match self.presolve_cell(row, col, strict) {
                    PresolveResult::Good => {},
                    PresolveResult::Bad => {
                        proof {
                            lemma_sweep_stopped(
                                g,
                                (row * n + col + 1) as nat,
                                (n * n) as nat,
                                strict,
                            );
                        }
                        return PresolveResult::Bad;
                    },
                }
                col += 1;
            }
            proof {
                assert((row + 1) * n == row * n + n) by (nonlinear_arith);
            }
            row += 1;
        }
        PresolveResult::Good
    }

    /// One sweep that tests with the full rule.
    pub fn presolve(&mut self) -> (r: PresolveResult)
        requires
            old(self).wf(),
        ensures
            final(self).wf(),
            final(self).spec_size() == old(self).spec_size(),
            final(self).givens() == old(self).givens(),
            (final(self)@, r is Good) == presolved(old(self)@, true),
    {
        self.presolve_with(true)
    }

    /// One sweep that tests with the simple line rule only.
    pub fn presolve_simple(&mut self) -> (r: PresolveResult)
        requires
            old(self).wf(),
        ensures
            final(self).wf(),
            final(self).spec_size() == old(self).spec_size(),
            final(self).givens() == old(self).givens(),
            (final(self)@, r is Good) == presolved(old(self)@, false),
    {
        self.presolve_with(false)
    }
}

} // verus!
