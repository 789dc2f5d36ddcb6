//! The board: four collections of bit-packed lines (each symbol by row and
//! by column) and an overlay that marks the cells given by the puzzle.

use vstd::prelude::*;
use crate::grid::{
    blank_grid, blank_marks, col_line, grid_full, grid_valid, is_symbol, marks_on_symbols,
    row_line, square, with_cell, BinoxCell,
};
use crate::rules::lemma_blank_grid;
use crate::row::{size_ok, BinRow};

verus! {

/// A square board of `X`, `O` and empty cells, with the cells that the
/// puzzle gives marked as such.
#[derive(Debug)]
pub struct Binox {
    size: u8,
    x_rows: Vec<BinRow>,
    o_rows: Vec<BinRow>,
    x_cols: Vec<BinRow>,
    o_cols: Vec<BinRow>,
    default_rows: Vec<BinRow>,
}

/// `rows` holds `size` well-formed lines of width `size`.
pub open spec fn lines_ok(rows: Seq<BinRow>, size: u8) -> bool {
    &&& rows.len() == size
    &&& forall|i: int| 0 <= i < rows.len() ==> (#[trigger] rows[i]).wf() && rows[i].size == size
}

impl View for Binox {
    type V = Seq<Seq<BinoxCell>>;

    /// The board as a grid of cells, row by row.
    closed spec fn view(&self) -> Seq<Seq<BinoxCell>> {
        Seq::new(
            self.size as nat,
            |r: int| Seq::new(self.size as nat, |c: int| self.cell_at(r, c)),
        )
    }
}

impl Binox {
    /// The side of the board.
    pub closed spec fn spec_size(&self) -> u8 {
        self.size
    }

    /// The cell in row `r`, column `c`, read off the two row collections.
    pub closed spec fn cell_at(&self, r: int, c: int) -> BinoxCell {
        if self.x_rows@[r]@[c] {
            BinoxCell::X
        } else if self.o_rows@[r]@[c] {
            BinoxCell::O
        } else {
            BinoxCell::EMPTY
        }
    }

    /// The cells that the puzzle gives, row by row.
    pub closed spec fn givens(&self) -> Seq<Seq<bool>> {
        Seq::new(
            self.size as nat,
            |r: int| Seq::new(self.size as nat, |c: int| self.default_rows@[r]@[c]),
        )
    }

    /// What the representation keeps true of the cell in row `r`, column
    /// `c`: it is not both symbols at once, the column collections mirror
    /// the row collections, and a given cell holds a symbol.
    pub closed spec fn cell_ok(&self, r: int, c: int) -> bool {
        &&& !(self.x_rows@[r]@[c] && self.o_rows@[r]@[c])
        &&& self.x_rows@[r]@[c] == self.x_cols@[c]@[r]
        &&& self.o_rows@[r]@[c] == self.o_cols@[c]@[r]
        &&& self.default_rows@[r]@[c] ==> self.x_rows@[r]@[c] || self.o_rows@[r]@[c]
    }

    /// The invariant of the representation.
    pub closed spec fn rep_ok(&self) -> bool {
        &&& size_ok(self.size)
        &&& lines_ok(self.x_rows@, self.size)
        &&& lines_ok(self.o_rows@, self.size)
        &&& lines_ok(self.x_cols@, self.size)
        &&& lines_ok(self.o_cols@, self.size)
        &&& lines_ok(self.default_rows@, self.size)
        &&& forall|r: int, c: int|
            0 <= r < self.size && 0 <= c < self.size ==> #[trigger] self.cell_ok(r, c)
    }

    /// The invariant of a board: a sound representation of a square grid of
    /// an allowed size, in which every given cell holds a symbol.
    pub open spec fn wf(&self) -> bool {
        &&& self.rep_ok()
        &&& size_ok(self.spec_size())
        &&& square(self@, self.spec_size() as nat)
        &&& square(self.givens(), self.spec_size() as nat)
        &&& marks_on_symbols(self@, self.givens())
    }

    /// A sound representation is a well-formed board.
    proof fn lemma_rep(&self)
        requires
            self.rep_ok(),
        ensures
            self.wf(),
    {
        assert forall|r: int, c: int|
            0 <= r < self@.len() && 0 <= c < self@.len() && #[trigger] self.givens()[r][c]
            implies is_symbol(self@[r][c]) by {
            assert(self.cell_ok(r, c));
        }
    }

    /// The four line collections hold exactly the lines of the grid.
    proof fn lemma_lines(&self, i: int)
        requires
            self.rep_ok(),
            0 <= i < self.size,
        ensures
            self.x_rows@[i]@ == row_line(self@, i, BinoxCell::X),
            self.o_rows@[i]@ == row_line(self@, i, BinoxCell::O),
            self.x_cols@[i]@ == col_line(self@, i, BinoxCell::X),
            self.o_cols@[i]@ == col_line(self@, i, BinoxCell::O),
    {
        let xr = row_line(self@, i, BinoxCell::X);
        let or = row_line(self@, i, BinoxCell::O);
        let xc = col_line(self@, i, BinoxCell::X);
        let oc = col_line(self@, i, BinoxCell::O);
        assert forall|k: int| 0 <= k < self.size
            implies self.x_rows@[i]@[k] == #[trigger] xr[k] by {
            assert(self.cell_ok(i, k));
        }
        assert forall|k: int| 0 <= k < self.size
            implies self.o_rows@[i]@[k] == #[trigger] or[k] by {
            assert(self.cell_ok(i, k));
        }
        assert forall|k: int| 0 <= k < self.size
            implies self.x_cols@[i]@[k] == #[trigger] xc[k] by {
            assert(self.cell_ok(k, i));
        }
        assert forall|k: int| 0 <= k < self.size
            implies self.o_cols@[i]@[k] == #[trigger] oc[k] by {
            assert(self.cell_ok(k, i));
        }
        assert(self.x_rows@[i].wf() && self.o_rows@[i].wf());
        assert(self.x_cols@[i].wf() && self.o_cols@[i].wf());
        assert(self.x_rows@[i]@ =~= xr);
        assert(self.o_rows@[i]@ =~= or);
        assert(self.x_cols@[i]@ =~= xc);
        assert(self.o_cols@[i]@ =~= oc);
    }

    /// A blank board of side `size`: every cell empty and none given. The
    /// side must be even and lie between 4 and 16.
    pub fn new(size: u8) -> (r: Result<Self, &'static str>)
        ensures
            size_ok(size) == r.is_ok(),
            r matches Ok(b) ==> b.wf() && b.spec_size() == size && b@ == blank_grid(size as nat)
                && b.givens() == blank_marks(size as nat),
            r matches Ok(b) ==> grid_valid(b@) && !grid_full(b@),
            r matches Err(e) ==> e@ == (if size > 16 {
                "size must be at most 16"@
            } else if size < 4 {
                "size must be at least 4"@
            } else {
                "size must be even"@
            }),
    {
        let row = match BinRow::new(size) {
            Ok(row) => row,
            Err(e) => {
                return Err(e);
            },
        };
        let n: usize = size as usize;
        let b = Binox {
            size,
            x_rows: vec![row; n],
            o_rows: vec![row; n],
            x_cols: vec![row; n],
            o_cols: vec![row; n],
            default_rows: vec![row; n],
        };
        proof {
            assert forall|r: int, c: int| 0 <= r < size && 0 <= c < size
                implies #[trigger] b.cell_ok(
                r,
                c,
            ) by {
                assert(b.x_rows@[r] == row && b.o_rows@[r] == row && b.default_rows@[r] == row);
                assert(b.x_cols@[c] == row && b.o_cols@[c] == row);
            }
            assert(b.rep_ok());
            b.lemma_rep();
            assert(b@ =~~= blank_grid(size as nat));
            assert(b.givens() =~~= blank_marks(size as nat));
            lemma_blank_grid(size as nat);
        }
        Ok(b)
    }

    /// What a change of the cell in row `row`, column `col` leaves alone:
    /// the size, the lines' shape and every other cell of the overlay.
    proof fn lemma_written(&self, before: &Binox, row: int, col: int, x: bool, o: bool)
        requires
            before.rep_ok(),
            0 <= row < before.size,
            0 <= col < before.size,
            !(x && o),
            before.default_rows@[row]@[col] ==> x || o,
            self.size == before.size,
            self.default_rows == before.default_rows,
            self.x_rows@ == before.x_rows@.update(row, self.x_rows@[row]),
            self.o_rows@ == before.o_rows@.update(row, self.o_rows@[row]),
            self.x_cols@ == before.x_cols@.update(col, self.x_cols@[col]),
            self.o_cols@ == before.o_cols@.update(col, self.o_cols@[col]),
            self.x_rows@[row].wf() && self.x_rows@[row].size == self.size,
            self.o_rows@[row].wf() && self.o_rows@[row].size == self.size,
            self.x_cols@[col].wf() && self.x_cols@[col].size == self.size,
            self.o_cols@[col].wf() && self.o_cols@[col].size == self.size,
            self.x_rows@[row]@ == before.x_rows@[row]@.update(col, x),
            self.o_rows@[row]@ == before.o_rows@[row]@.update(col, o),
            self.x_cols@[col]@ == before.x_cols@[col]@.update(row, x),
            self.o_cols@[col]@ == before.o_cols@[col]@.update(row, o),
        ensures
            self.wf(),
            self.givens() == before.givens(),
            self@ == with_cell(
                before@,
                row,
                col,
                if x {
                    BinoxCell::X
                } else if o {
                    BinoxCell::O
                } else {
                    BinoxCell::EMPTY
                },
            ),
    {
        assert forall|r: int, c: int|
            0 <= r < self.size && 0 <= c < self.size implies #[trigger] self.cell_ok(r, c) by {
            assert(before.cell_ok(r, c));
        }
        assert(self.rep_ok());
        self.lemma_rep();
        let cell = if x {
            BinoxCell::X
        } else if o {
            BinoxCell::O
        } else {
            BinoxCell::EMPTY
        };
        assert forall|r: int, c: int|
            0 <= r < self.size && 0 <= c < self.size implies #[trigger] self@[r][c] == with_cell(
            before@,
            row,
            col,
            cell,
        )[r][c] by {
            assert(self@[r][c] == self.cell_at(r, c));
            assert(before@[r][c] == before.cell_at(r, c));
        }
        assert(self@ =~~= with_cell(before@, row, col, cell));
        assert(self.givens() =~~= before.givens());
    }

    /// Writes `X` into a cell, given or not.
    pub(crate) fn set_x(&mut self, row: u8, col: u8) -> (r: Result<(), &'static str>)
        requires
            old(self).wf(),
        ensures
            final(self).wf(),
            final(self).spec_size() == old(self).spec_size(),
            final(self).givens() == old(self).givens(),
            r.is_ok() == (row < old(self).spec_size() && col < old(self).spec_size()),
            r.is_ok() ==> final(self)@
                == with_cell(old(self)@, row as int, col as int, BinoxCell::X),
            r matches Err(e) ==> final(self)@ == old(self)@ && e@
                == "attempted to set x out of range"@,
    {
        if row >= self.size || col >= self.size {
            return Err("attempted to set x out of range");
        }
        self.x_rows[row as usize].set_one(col).unwrap();
        self.o_rows[row as usize].set_zero(col).unwrap();
        self.x_cols[col as usize].set_one(row).unwrap();
        self.o_cols[col as usize].set_zero(row).unwrap();
        proof {
            self.lemma_written(old(self), row as int, col as int, true, false);
        }
        Ok(())
    }

    /// Writes `O` into a cell, given or not.
    pub(crate) fn set_o(&mut self, row: u8, col: u8) -> (r: Result<(), &'static str>)
        requires
            old(self).wf(),
        ensures
            final(self).wf(),
            final(self).spec_size() == old(self).spec_size(),
            final(self).givens() == old(self).givens(),
            r.is_ok() == (row < old(self).spec_size() && col < old(self).spec_size()),
            r.is_ok() ==> final(self)@
                == with_cell(old(self)@, row as int, col as int, BinoxCell::O),
            r matches Err(e) ==> final(self)@ == old(self)@ && e@
                == "attempted to set o out of range"@,
    {
        if row >= self.size || col >= self.size {
            return Err("attempted to set o out of range");
        }
        self.x_rows[row as usize].set_zero(col).unwrap();
        self.o_rows[row as usize].set_one(col).unwrap();
        self.x_cols[col as usize].set_zero(row).unwrap();
        self.o_cols[col as usize].set_one(row).unwrap();
        proof {
            self.lemma_written(old(self), row as int, col as int, false, true);
        }
        Ok(())
    }

    /// Empties a cell that the puzzle does not give.
    pub(crate) fn set_empty(&mut self, row: u8, col: u8) -> (r: Result<(), &'static str>)
        requires
            old(self).wf(),
            row < old(self).spec_size() && col < old(self).spec_size() ==> !old(
                self,
            ).givens()[row as int][col as int],
        ensures
            final(self).wf(),
            final(self).spec_size() == old(self).spec_size(),
            final(self).givens() == old(self).givens(),
            r.is_ok() == (row < old(self).spec_size() && col < old(self).spec_size()),
            r.is_ok() ==> final(self)@ == with_cell(
                old(self)@,
                row as int,
                col as int,
                BinoxCell::EMPTY,
            ),
            r matches Err(e) ==> final(self)@ == old(self)@ && e@
                == "attempted to set empty out of range"@,
    {
        if row >= self.size || col >= self.size {
            return Err("attempted to set empty out of range");
        }
        self.x_rows[row as usize].set_zero(col).unwrap();
        self.o_rows[row as usize].set_zero(col).unwrap();
        self.x_cols[col as usize].set_zero(row).unwrap();
        self.o_cols[col as usize].set_zero(row).unwrap();
        proof {
            self.lemma_written(old(self), row as int, col as int, false, false);
        }
        Ok(())
    }

    /// Writes `cell` into a cell of the board. A cell outside the board and a
    /// cell that the puzzle gives are refused, and the board stays as it was.
    pub fn set_cell(&mut self, row: u8, col: u8, cell: BinoxCell) -> (r: Result<
        (),
        &'static str,
    >)
        requires
            old(self).wf(),
        ensures
            final(self).wf(),
            final(self).spec_size() == old(self).spec_size(),
            final(self).givens() == old(self).givens(),
            r.is_ok() == (row < old(self).spec_size() && col < old(self).spec_size() && !old(
                self,
            ).givens()[row as int][col as int]),
            r.is_ok() ==> final(self)@ == with_cell(old(self)@, row as int, col as int, cell),
            r matches Err(e) ==> final(self)@ == old(self)@ && e@ == (if row >= old(
                self,
            ).spec_size() || col >= old(self).spec_size() {
                "attempted to set cell out of range"@
            } else {
                "this cell cannot be modified."@
            }),
    {
        if row >= self.size || col >= self.size {
            return Err("attempted to set cell out of range");
        }
        if self.is_default(row, col).unwrap() {
            return Err("this cell cannot be modified.");
        }
        match cell {
            BinoxCell::X => self.set_x(row, col),
            BinoxCell::O => self.set_o(row, col),
            BinoxCell::EMPTY => self.set_empty(row, col),
        }
    }

    /// Empties every cell that the puzzle does not give.
    pub fn reset(&mut self)
        requires
            old(self).wf(),
        ensures
            final(self).wf(),
            final(self).spec_size() == old(self).spec_size(),
            final(self).givens() == old(self).givens(),
            forall|r: int, c: int|
                0 <= r < old(self).spec_size() && 0 <= c < old(self).spec_size()
                    ==> #[trigger] final(self)@[r][c] == (if old(self).givens()[r][c] {
                    old(self)@[r][c]
                } else {
                    BinoxCell::EMPTY
                }),
    {
        let size = self.size;
        let mut row: u8 = 0;
        while row < size
            invariant
                self.wf(),
                self.spec_size() == size,
                old(self).spec_size() == size,
                self.givens() == old(self).givens(),
                row <= size,
                forall|r: int, c: int|
                    0 <= r < size && 0 <= c < size ==> #[trigger] self@[r][c] == (if r >= row
                        || old(self).givens()[r][c] {
                        old(self)@[r][c]
                    } else {
                        BinoxCell::EMPTY
                    }),
            decreases size - row,
        {
            let mut col: u8 = 0;
            while col < size
                invariant
                    self.wf(),
                    self.spec_size() == size,
                    old(self).spec_size() == size,
                    self.givens() == old(self).givens(),
                    row < size,
                    col <= size,
                    forall|r: int, c: int|
                        0 <= r < size && 0 <= c < size ==> #[trigger] self@[r][c] == (if r > row
                            || (r == row && c >= col) || old(self).givens()[r][c] {
                            old(self)@[r][c]
                        } else {
                            BinoxCell::EMPTY
                        }),
                decreases size - col,
            {
                if !self.is_default(row, col).unwrap() {
                    self.set_empty(row, col).unwrap();
                }
                col += 1;
            }
            row += 1;
        }
    }

    /// Marks or unmarks a cell as given; only a cell that holds a symbol can
    /// be marked.
    pub(crate) fn set_default(&mut self, row: u8, col: u8, value: bool) -> (r: Result<
        (),
        &'static str,
    >)
        requires
            old(self).wf(),
            value && row < old(self).spec_size() && col < old(self).spec_size() ==> is_symbol(
                old(self)@[row as int][col as int],
            ),
        ensures
            final(self).wf(),
            final(self).spec_size() == old(self).spec_size(),
            final(self)@ == old(self)@,
            r.is_ok() == (row < old(self).spec_size() && col < old(self).spec_size()),
            r.is_ok() ==> final(self).givens() == old(self).givens().update(
                row as int,
                old(self).givens()[row as int].update(col as int, value),
            ),
            r matches Err(e) ==> final(self).givens() == old(self).givens() && e@
                == "attempted to set default out of range"@,
    {
        if row >= self.size || col >= self.size {
            return Err("attempted to set default out of range");
        }
        self.default_rows[row as usize].set_bool(col, value).unwrap();
        proof {
            assert forall|r: int, c: int|
                0 <= r < self.size && 0 <= c < self.size implies #[trigger] self.cell_ok(r, c) by {
                assert(old(self).cell_ok(r, c));
                assert(old(self)@[r][c] == old(self).cell_at(r, c));
            }
            assert(self.rep_ok());
            self.lemma_rep();
            assert(self@ =~~= old(self)@);
            assert(self.givens() =~~= old(self).givens().update(
                row as int,
                old(self).givens()[row as int].update(col as int, value),
            ));
        }
        Ok(())
    }

    /// What the cell in row `row`, column `col` holds.
    pub fn get_cell(&self, row: u8, col: u8) -> (r: Result<BinoxCell, &'static str>)
        requires
            self.wf(),
        ensures
            r.is_ok() == (row < self.spec_size() && col < self.spec_size()),
            r matches Ok(cell) ==> cell == self@[row as int][col as int],
            r matches Err(e) ==> e@ == "attempted to get cell out of range"@,
    {
        if row >= self.size || col >= self.size {
            return Err("attempted to get cell out of range");
        }
        proof {
            assert(self.cell_ok(row as int, col as int));
        }
        match (
            self.x_rows[row as usize].get(col).unwrap(),
            self.o_rows[row as usize].get(col).unwrap(),
        ) {
            (true, false) => Ok(BinoxCell::X),
            (false, true) => Ok(BinoxCell::O),
            _ => Ok(BinoxCell::EMPTY),
        }
    }

    /// Whether the puzzle gives the cell in row `row`, column `col`.
    pub fn is_default(&self, row: u8, col: u8) -> (r: Result<bool, &'static str>)
        requires
            self.wf(),
        ensures
            r.is_ok() == (row < self.spec_size() && col < self.spec_size()),
            r matches Ok(given) ==> given == self.givens()[row as int][col as int],
            r matches Err(e) ==> e@ == "attempted to get default out of range"@,
    {
        if row >= self.size || col >= self.size {
            return Err("attempted to get default out of range");
        }
        Ok(self.default_rows[row as usize].get(col).unwrap())
    }

    /// The line that holds where `X` stands in row `i`.
    pub(crate) fn x_row(&self, i: u8) -> (line: BinRow)
        requires
            self.wf(),
            i < self.spec_size(),
        ensures
            line.wf(),
            line.size == self.spec_size(),
            line@ == row_line(self@, i as int, BinoxCell::X),
    {
        proof {
            self.lemma_lines(i as int);
        }
        self.x_rows[i as usize]
    }

    /// The line that holds where `O` stands in row `i`.
    pub(crate) fn o_row(&self, i: u8) -> (line: BinRow)
        requires
            self.wf(),
            i < self.spec_size(),
        ensures
            line.wf(),
            line.size == self.spec_size(),
            line@ == row_line(self@, i as int, BinoxCell::O),
    {
        proof {
            self.lemma_lines(i as int);
        }
        self.o_rows[i as usize]
    }

    /// The line that holds where `X` stands in column `i`.
    pub(crate) fn x_col(&self, i: u8) -> (line: BinRow)
        requires
            self.wf(),
            i < self.spec_size(),
        ensures
            line.wf(),
            line.size == self.spec_size(),
            line@ == col_line(self@, i as int, BinoxCell::X),
    {
        proof {
            self.lemma_lines(i as int);
        }
        self.x_cols[i as usize]
    }

    /// The line that holds where `O` stands in column `i`.
    pub(crate) fn o_col(&self, i: u8) -> (line: BinRow)
        requires
            self.wf(),
            i < self.spec_size(),
        ensures
            line.wf(),
            line.size == self.spec_size(),
            line@ == col_line(self@, i as int, BinoxCell::O),
    {
        proof {
            self.lemma_lines(i as int);
        }
        self.o_cols[i as usize]
    }

    /// The side of the board.
    pub fn size(&self) -> (r: u8)
        ensures
            r == self.spec_size(),
    {
        self.size
    }
}

impl Clone for Binox {
    /// A deep, independent copy of the board.
    fn clone(&self) -> (r: Self)
        ensures
            r@ == self@,
            r.givens() == self.givens(),
            r.spec_size() == self.spec_size(),
            self.wf() ==> r.wf(),
    {
        let r = Binox {
            size: self.size,
            x_rows: self.x_rows.clone(),
            o_rows: self.o_rows.clone(),
            x_cols: self.x_cols.clone(),
            o_cols: self.o_cols.clone(),
            default_rows: self.default_rows.clone(),
        };
        proof {
            assert(r.x_rows@ =~= self.x_rows@);
            assert(r.o_rows@ =~= self.o_rows@);
            assert(r.x_cols@ =~= self.x_cols@);
            assert(r.o_cols@ =~= self.o_cols@);
            assert(r.default_rows@ =~= self.default_rows@);
            assert(r@ =~~= self@);
            assert(r.givens() =~~= self.givens());
            if self.wf() {
                assert forall|i: int, j: int|
                    0 <= i < r.size && 0 <= j < r.size implies #[trigger] r.cell_ok(i, j) by {
                    assert(self.cell_ok(i, j));
                }
                r.lemma_rep();
            }
        }
        r
    }
}

} // verus!
