//! The generator: it seeds a board at random, adds symbols until one
//! solution is left, takes away the symbols that are not needed, and marks
//! what remains as given.

use vstd::prelude::*;
use crate::board::Binox;
use crate::clues::{
    cells_where, copied_from, differing_cells, empty_cells, irreducible, lemma_cells_where,
    lemma_copied_from, lemma_irreducible_not_full, lemma_locally_minimized,
    lemma_perfectly_minimized, locally_minimized, perfectly_minimized,
};
use crate::codec::lemma_cell_index;
use crate::grid::{
    blank_marks, empties, grid_full, is_symbol, lemma_same_grid, solves, with_cell, BinoxCell,
};
use crate::random::{random_below, random_bool, shuffle};
use crate::row::size_ok;
use crate::solutions::{lemma_empties_fill, lemma_sweep, only_solution, two_solutions, unique};
use crate::solver::BinoxSolution;

verus! {

/// A rearrangement of a sequence is as long as the sequence, and each of its
/// items is an item of the sequence.
pub proof fn lemma_rearranged<T>(a: Seq<T>, b: Seq<T>)
    requires
        a.to_multiset() == b.to_multiset(),
    ensures
        a.len() == b.len(),
        forall|i: int| 0 <= i < a.len() ==> b.contains(#[trigger] a[i]),
{
    vstd::seq_lib::to_multiset_len(a);
    vstd::seq_lib::to_multiset_len(b);
    assert forall|i: int| 0 <= i < a.len() implies b.contains(#[trigger] a[i]) by {
        assert(a.contains(a[i]));
        vstd::seq_lib::to_multiset_contains(a, a[i]);
        vstd::seq_lib::to_multiset_contains(b, a[i]);
    }
}

/// The numbers from 0 up to `n`, `n` left out.
fn counting(n: u8) -> (r: Vec<u8>)
    ensures
        r@ == Seq::new(n as nat, |i: int| i as u8),
{
    let mut result: Vec<u8> = Vec::new();
    let mut i: u8 = 0;
    while i < n
        invariant
            i <= n,
            result@ == Seq::new(i as nat, |k: int| k as u8),
        decreases n - i,
    {
        result.push(i);
        assert(result@ =~= Seq::new((i + 1) as nat, |k: int| k as u8));
        i += 1;
    }
    result
}

impl Binox {
    /// Writes `X` where `pick` is true and `O` where it is not.
    pub fn place(&mut self, row: u8, col: u8, pick: bool) -> (r: Result<(), &'static str>)
        requires
            old(self).wf(),
        ensures
            final(self).wf(),
            final(self).spec_size() == old(self).spec_size(),
            final(self).givens() == old(self).givens(),
            r.is_ok() == (row < old(self).spec_size() && col < old(self).spec_size()),
            r.is_ok() ==> final(self)@ == with_cell(
                old(self)@,
                row as int,
                col as int,
                if pick {
                    BinoxCell::X
                } else {
                    BinoxCell::O
                },
            ),
            r matches Err(e) ==> final(self)@ == old(self)@ && e@ == (if pick {
                "attempted to set x out of range"@
            } else {
                "attempted to set o out of range"@
            }),
    {
        if pick {
            self.set_x(row, col)
        } else {
            self.set_o(row, col)
        }
    }

    /// The cells in which this board and `other` differ, row by row.
    pub fn get_differences(&self, other: &Binox) -> (r: Result<Vec<(u8, u8)>, &'static str>)
        requires
            self.wf(),
            other.wf(),
        ensures
            r.is_ok() == (self.spec_size() == other.spec_size()),
            r matches Ok(cells) ==> cells@ == differing_cells(self@, other@),
            r matches Err(e) ==> e@ == "must be same size"@,
    {
        if self.size() != other.size() {
            return Err("must be same size");
        }
        let size = self.size();
        let ghost n = size as int;
        let ghost f = |r: int, c: int| self@[r][c] != other@[r][c];
        let mut result: Vec<(u8, u8)> = Vec::new();
        let mut row: u8 = 0;
        while row < size
            invariant
                self.wf(),
                other.wf(),
                size == self.spec_size(),
                size == other.spec_size(),
                n == size,
                row <= size,
                f == (|r: int, c: int| self@[r][c] != other@[r][c]),
                0 <= row * n <= n * n,
                result@ == cells_where(n as nat, (row * n) as nat, f),
            decreases size - row,
        {
            proof {
                assert(0 <= row * n && row * n + n <= n * n) by (nonlinear_arith)
                    requires
                        0 <= row < n,
                ;
            }
            let mut col: u8 = 0;
            while col < size
                invariant
                    self.wf(),
                    other.wf(),
                    size == self.spec_size(),
                    size == other.spec_size(),
                    n == size,
                    row < size,
                    col <= size,
                    f == (|r: int, c: int| self@[r][c] != other@[r][c]),
                    0 <= row * n && row * n + n <= n * n,
                    result@ == cells_where(n as nat, (row * n + col) as nat, f),
                decreases size - col,
            {
                proof {
                    lemma_cell_index(n, row as int, col as int);
                }
                if self.get_cell(row, col).unwrap() != other.get_cell(row, col).unwrap() {
                    result.push((row, col));
                }
                col += 1;
            }
            proof {
                assert((row + 1) * n == row * n + n) by (nonlinear_arith);
            }
            row += 1;
        }
        Ok(result)
    }

    /// The empty cells of the board, row by row.
    pub fn get_empties(&self) -> (cells: Vec<(u8, u8)>)
        requires
            self.wf(),
        ensures
            cells@ == empty_cells(self@),
    {
        let size = self.size();
        let ghost n = size as int;
        let ghost f = |r: int, c: int| self@[r][c] == BinoxCell::EMPTY;
        let mut result: Vec<(u8, u8)> = Vec::new();
        let mut row: u8 = 0;
        while row < size
            invariant
                self.wf(),
                size == self.spec_size(),
                n == size,
                row <= size,
                f == (|r: int, c: int| self@[r][c] == BinoxCell::EMPTY),
                0 <= row * n <= n * n,
                result@ == cells_where(n as nat, (row * n) as nat, f),
            decreases size - row,
        {
            proof {
                assert(0 <= row * n && row * n + n <= n * n) by (nonlinear_arith)
                    requires
                        0 <= row < n,
                ;
            }
            let mut col: u8 = 0;
            while col < size
                invariant
                    self.wf(),
                    size == self.spec_size(),
                    n == size,
                    row < size,
                    col <= size,
                    f == (|r: int, c: int| self@[r][c] == BinoxCell::EMPTY),
                    0 <= row * n && row * n + n <= n * n,
                    result@ == cells_where(n as nat, (row * n + col) as nat, f),
                decreases size - col,
            {
                proof {
                    lemma_cell_index(n, row as int, col as int);
                }
                if self.get_cell(row, col).unwrap() == BinoxCell::EMPTY {
                    result.push((row, col));
                }
                col += 1;
            }
            proof {
                assert((row + 1) * n == row * n + n) by (nonlinear_arith);
            }
            row += 1;
        }
        result
    }

    /// Marks every cell that holds a symbol as given.
    pub fn make_cells_unmodifiable(&mut self)
        requires
            old(self).wf(),
        ensures
            final(self).wf(),
            final(self).spec_size() == old(self).spec_size(),
            final(self)@ == old(self)@,
            forall|r: int, c: int|
                0 <= r < final(self).spec_size() && 0 <= c < final(self).spec_size()
                    ==> #[trigger] final(self).givens()[r][c] == is_symbol(final(self)@[r][c]),
    {
        let size = self.size();
        let ghost n = size as int;
        let mut row: u8 = 0;
        while row < size
            invariant
                self.wf(),
                size == self.spec_size(),
                size == old(self).spec_size(),
                self@ == old(self)@,
                n == size,
                row <= size,
                forall|r: int, c: int|
                    0 <= r < row && 0 <= c < n ==> #[trigger] self.givens()[r][c] == is_symbol(
                        self@[r][c],
                    ),
            decreases size - row,
        {
            let mut col: u8 = 0;
            while col < size
                invariant
                    self.wf(),
                    size == self.spec_size(),
                    size == old(self).spec_size(),
                    self@ == old(self)@,
                    n == size,
                    row < size,
                    col <= size,
                    forall|r: int, c: int|
                        0 <= r < row && 0 <= c < n ==> #[trigger] self.givens()[r][c]
                            == is_symbol(self@[r][c]),
                    forall|c: int|
                        0 <= c < col ==> #[trigger] self.givens()[row as int][c] == is_symbol(
                            self@[row as int][c],
                        ),
                decreases size - col,
            {
                if self.get_cell(row, col).unwrap() != BinoxCell::EMPTY {
                    self.set_default(row, col, true).unwrap();
                }
                col += 1;
            }
            row += 1;
        }
    }

    /// The local minimization: every symbol that the puzzle does not give
    /// and that one strict sweep writes back, once its cell is emptied, is
    /// taken away. The cells are passed row by row, each on the board as
    /// the earlier ones left it.
    pub fn minimize_local(&mut self)
        requires
            old(self).wf(),
        ensures
            final(self).wf(),
            final(self).spec_size() == old(self).spec_size(),
            final(self).givens() == old(self).givens(),
            final(self)@ == locally_minimized(
                old(self)@,
                old(self).givens(),
                old(self)@.len() * old(self)@.len(),
            ),
    {
        let size = self.size();
        let ghost n = size as int;
        let ghost g = self@;
        let ghost m = self.givens();
        let mut row: u8 = 0;
        while row < size
            invariant
                self.wf(),
                self.spec_size() == size,
                old(self).spec_size() == size,
                self.givens() == m,
                m == old(self).givens(),
                g == old(self)@,
                g.len() == n,
                n == size,
                row <= size,
                0 <= row * n <= n * n,
                self@ == locally_minimized(g, m, (row * n) as nat),
            decreases size - row,
        {
            proof {
                assert(0 <= row * n && row * n + n <= n * n) by (nonlinear_arith)
                    requires
                        0 <= row < n,
                ;
            }
            let mut col: u8 = 0;
            while col < size
                invariant
                    self.wf(),
                    self.spec_size() == size,
                    old(self).spec_size() == size,
                    self.givens() == m,
                    m == old(self).givens(),
                    g == old(self)@,
                    g.len() == n,
                    n == size,
                    row < size,
                    col <= size,
                    0 <= row * n && row * n + n <= n * n,
                    self@ == locally_minimized(g, m, (row * n + col) as nat),
                decreases size - col,
            {
                proof {
                    lemma_cell_index(n, row as int, col as int);
                }
                let current_cell = self.get_cell(row, col).unwrap();
                if current_cell != BinoxCell::EMPTY && !self.is_default(row, col).unwrap() {
                    let mut clone = self.clone();
                    clone.set_empty(row, col).unwrap();
                    clone.presolve();
                    if clone.get_cell(row, col).unwrap() == current_cell {
                        self.set_empty(row, col).unwrap();
                    }
                }
                col += 1;
            }
            proof {
                assert((row + 1) * n == row * n + n) by (nonlinear_arith);
            }
            row += 1;
        }
    }

    /// The perfect minimization: every symbol that the puzzle does not give
    /// and without which the board still has no two solutions is taken
    /// away. The cells are passed row by row, each on the board as the
    /// earlier ones left it.
    pub fn minimize_perfect(&mut self)
        requires
            old(self).wf(),
        ensures
            final(self).wf(),
            final(self).spec_size() == old(self).spec_size(),
            final(self).givens() == old(self).givens(),
            final(self)@ == perfectly_minimized(
                old(self)@,
                old(self).givens(),
                old(self)@.len() * old(self)@.len(),
            ),
    {
        let size = self.size();
        let ghost n = size as int;
        let ghost g = self@;
        let ghost m = self.givens();
        let mut row: u8 = 0;
        while row < size
            invariant
                self.wf(),
                self.spec_size() == size,
                old(self).spec_size() == size,
                self.givens() == m,
                m == old(self).givens(),
                g == old(self)@,
                g.len() == n,
                n == size,
                row <= size,
                0 <= row * n <= n * n,
                self@ == perfectly_minimized(g, m, (row * n) as nat),
            decreases size - row,
        {
            proof {
                assert(0 <= row * n && row * n + n <= n * n) by (nonlinear_arith)
                    requires
                        0 <= row < n,
                ;
            }
            let mut col: u8 = 0;
            while col < size
                invariant
                    self.wf(),
                    self.spec_size() == size,
                    old(self).spec_size() == size,
                    self.givens() == m,
                    m == old(self).givens(),
                    g == old(self)@,
                    g.len() == n,
                    n == size,
                    row < size,
                    col <= size,
                    0 <= row * n && row * n + n <= n * n,
                    self@ == perfectly_minimized(g, m, (row * n + col) as nat),
                decreases size - col,
            {
                proof {
                    lemma_cell_index(n, row as int, col as int);
                }
                let current_cell = self.get_cell(row, col).unwrap();
                if current_cell != BinoxCell::EMPTY && !self.is_default(row, col).unwrap() {
                    let ghost before = self@;
                    self.set_empty(row, col).unwrap();
                    let ghost cleared = self@;
                    if let BinoxSolution::Multiple(a, b) = self.solve(true) {
                        proof {
                            assert(solves(cleared, a@) && solves(cleared, b@) && a@ != b@);
                        }
                        self.set_cell(row, col, current_cell).unwrap();
                        proof {
                            assert(self@ =~~= before);
                        }
                    } else {
                        proof {
                            if two_solutions(cleared) {
                                let (a, b) = choose|
                                    a: Seq<Seq<BinoxCell>>,
                                    b: Seq<Seq<BinoxCell>>,
                                |
                                    #![trigger solves(cleared, a), solves(cleared, b)]
                                    solves(cleared, a) && solves(cleared, b) && a != b;
                                assert(false);
                            }
                        }
                    }
                }
                col += 1;
            }
            proof {
                assert((row + 1) * n == row * n + n) by (nonlinear_arith);
            }
            row += 1;
        }
    }

    /// Fills the first `num` of `cells` with the symbols that `solved` holds
    /// there.
    fn add_extras(&mut self, solved: &Binox, cells: &Vec<(u8, u8)>, num: usize)
        requires
            old(self).wf(),
            solved.wf(),
            solved.spec_size() == old(self).spec_size(),
            num <= cells@.len(),
            forall|i: int|
                0 <= i < cells@.len() ==> (#[trigger] cells@[i]).0 < old(self).spec_size()
                    && cells@[i].1 < old(self).spec_size()
                        && !old(self).givens()[cells@[i].0 as int][cells@[i].1 as int],
        ensures
            final(self).wf(),
            final(self).spec_size() == old(self).spec_size(),
            final(self).givens() == old(self).givens(),
            final(self)@ == copied_from(old(self)@, solved@, cells@, num as nat),
    {
        let mut i: usize = 0;
        while i < num
            invariant
                self.wf(),
                solved.wf(),
                solved.spec_size() == self.spec_size(),
                self.spec_size() == old(self).spec_size(),
                self.givens() == old(self).givens(),
                i <= num <= cells@.len(),
                forall|i: int|
                    0 <= i < cells@.len() ==> (#[trigger] cells@[i]).0 < old(self).spec_size()
                        && cells@[i].1 < old(self).spec_size()
                            && !old(self).givens()[cells@[i].0 as int][cells@[i].1 as int],
                self@ == copied_from(old(self)@, solved@, cells@, i as nat),
            decreases num - i,
        {
            let (row, col) = cells[i];
            self.set_cell(row, col, solved.get_cell(row, col).unwrap()).unwrap();
            i += 1;
        }
    }

    /// Makes a puzzle of side `size` with exactly one solution, every symbol
    /// of which is given. With `perfect` no symbol of it can be left out;
    /// `extras` symbols of the solution are added at the end, as far as
    /// cells are free. The random seed may admit no solution: the generator
    /// then gives up with an error and does not try again.
    pub fn generate(size: u8, perfect: bool, extras: usize) -> (r: Result<Binox, &'static str>)
        ensures
            !size_ok(size) ==> r is Err,
            r matches Ok(b) ==> {
                &&& size_ok(size)
                &&& b.wf()
                &&& b.spec_size() == size
                &&& unique(b@)
                &&& forall|i: int, j: int|
                    0 <= i < size && 0 <= j < size ==> #[trigger] b.givens()[i][j] == is_symbol(
                        b@[i][j],
                    )
                &&& perfect && extras == 0 ==> irreducible(b@, blank_marks(size as nat))
                    && !grid_full(b@)
            },
            r matches Err(e) ==> e@ == (if size > 16 {
                "size must be at most 16"@
            } else if size < 4 {
                "size must be at least 4"@
            } else if size % 2 == 1 {
                "size must be even"@
            } else {
                "something went wrong"@
            }),
    {
        let mut binox = match Binox::new(size) {
            Ok(b) => b,
            Err(e) => {
                return Err(e);
            },
        };
        let ghost n = size as nat;
        let ghost marks = blank_marks(n);
        // Seed: one random symbol in each row, on a shuffled diagonal.
        let mut rows = counting(size);
        let cols = counting(size);
        let ghost natural = rows@;
        shuffle(&mut rows);
        proof {
            lemma_rearranged(rows@, natural);
        }
        let mut i: u8 = 0;
        while i < size
            invariant
                binox.wf(),
                binox.spec_size() == size,
                binox.givens() == marks,
                i <= size,
                rows@.len() == size,
                cols@.len() == size,
                cols@ == Seq::new(n, |k: int| k as u8),
                n == size,
                natural == Seq::new(n, |k: int| k as u8),
                forall|k: int| 0 <= k < rows@.len() ==> natural.contains(#[trigger] rows@[k]),
            decreases size - i,
        {
            proof {
                assert(natural.contains(rows@[i as int]));
            }
            binox.place(rows[i as usize], cols[i as usize], random_bool()).unwrap();
            i += 1;
        }
        // Repair: add symbols until only one solution is left. Two solutions
        // differ in a cell that is still empty, so each round fills a cell.
        let mut settled = false;
        while !settled
            invariant
                binox.wf(),
                binox.spec_size() == size,
                binox.givens() == marks,
                n == size,
                size_ok(size),
                settled ==> unique(binox@),
            decreases empties(binox@) + (if settled { 0int } else { 1int }),
        {
            match binox.solve(true) {
                BinoxSolution::Zero => {
                    return Err("something went wrong");
                },
                BinoxSolution::One(a) => {
                    proof {
                        assert(only_solution(binox@, a@));
                    }
                    settled = true;
                },
                BinoxSolution::Multiple(a, b) => {
                    let diff = match a.get_differences(&b) {
                        Ok(diff) => diff,
                        Err(e) => {
                            return Err(e);
                        },
                    };
                    proof {
                        let f = |r: int, c: int| a@[r][c] != b@[r][c];
                        lemma_cells_where(n, n * n, f);
                        if diff@.len() == 0 {
                            assert forall|r: int, c: int| 0 <= r < n && 0 <= c < n
                                implies #[trigger] a@[r][c]
                                == b@[r][c] by {
                                lemma_cell_index(n as int, r, c);
                                if f(r, c) {
                                    assert(diff@.contains((r as u8, c as u8)));
                                }
                            }
                            lemma_same_grid(a@, b@, n);
                        }
                    }
                    if diff.is_empty() {
                        settled = true;
                    } else {
                        let index = random_below(diff.len());
                        let pair = diff[index];
                        proof {
                            let r = pair.0 as int;
                            let c = pair.1 as int;
                            assert(a@[r][c] != b@[r][c]);
                            assert(!is_symbol(binox@[r][c]));
                            lemma_cell_index(n as int, r, c);
                            lemma_empties_fill(binox@, r, c, BinoxCell::X, n * n);
                            lemma_empties_fill(binox@, r, c, BinoxCell::O, n * n);
                        }
                        match binox.place(pair.0, pair.1, random_bool()) {
                            Ok(()) => {},
                            Err(e) => {
                                return Err(e);
                            },
                        }
                    }
                },
            }
        }
        // Minimize: take away what a sweep brings back, and with `perfect`
        // everything that the one solution does not need.
        let ghost one = choose|one: Seq<Seq<BinoxCell>>| only_solution(binox@, one);
        proof {
            lemma_locally_minimized(binox@, marks, n * n, one);
        }
        binox.minimize_local();
        if perfect {
            proof {
                lemma_perfectly_minimized(binox@, marks, n * n, one);
            }
            binox.minimize_perfect();
            proof {
                assert forall|r: int, c: int|
                    0 <= r < n && 0 <= c < n && is_symbol(#[trigger] binox@[r][c])
                        && !marks[r][c] implies two_solutions(
                    with_cell(binox@, r, c, BinoxCell::EMPTY),
                ) by {
                    lemma_cell_index(n as int, r, c);
                }
                lemma_irreducible_not_full(binox@, marks);
            }
        }
        // Extras: give away symbols of the solution in cells that a simple
        // sweep leaves open, picked at random.
        if extras > 0 {
            let mut clone = binox.clone();
            clone.presolve_simple();
            let mut empties = clone.get_empties();
            let num = if empties.len() > extras {
                extras
            } else {
                empties.len()
            };
            let ghost listed = empties@;
            shuffle(&mut empties);
            proof {
                assert forall|h: Seq<Seq<BinoxCell>>| solves(clone@, h) == #[trigger] solves(
                    binox@,
                    h,
                ) by {
                    lemma_sweep(binox@, n * n, false, h);
                }
                lemma_rearranged(empties@, listed);
                lemma_cells_where(n, n * n, |r: int, c: int| clone@[r][c] == BinoxCell::EMPTY);
            }
            let solved = match clone.solve(true) {
                BinoxSolution::Zero => {
                    proof {
                        assert(solves(binox@, one));
                        assert(solves(clone@, one));
                    }
                    return Err("something went wrong");
                },
                BinoxSolution::One(a) => a,
                BinoxSolution::Multiple(a, _) => a,
            };
            proof {
                assert(solves(binox@, solved@));
                assert(solved@ == one);
                lemma_copied_from(binox@, one, empties@, num as nat);
            }
            binox.add_extras(&solved, &empties, num);
        }
        binox.make_cells_unmodifiable();
        proof {
            assert(only_solution(binox@, one));
        }
        Ok(binox)
    }
}

} // verus!
