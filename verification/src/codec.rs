//! The textual form of a board: one character per cell, row by row. `x` and
//! `o` are symbols that may be edited, `X` and `O` are symbols that the
//! puzzle gives, and any other character is an empty cell.

use vstd::prelude::*;
use vstd::arithmetic::div_mod::lemma_fundamental_div_mod_converse;
use vstd::string::StringExecFns;
use vstd::string::StrSliceExecFns;
use crate::board::Binox;
use crate::grid::{is_symbol, lemma_same_grid, marks_on_symbols, square, BinoxCell};
use crate::row::size_ok;

verus! {

/// The largest number whose square is at most `n`.
pub open spec fn floor_sqrt(n: nat) -> nat
    decreases n,
{
    if n == 0 {
        0
    } else {
        let s = floor_sqrt((n - 1) as nat);
        if (s + 1) * (s + 1) <= n {
            s + 1
        } else {
            s
        }
    }
}

/// `floor_sqrt(n)` is the one number `s` with `s * s <= n < (s + 1) * (s + 1)`.
pub proof fn lemma_floor_sqrt(n: nat, s: nat)
    ensures
        floor_sqrt(n) * floor_sqrt(n) <= n < (floor_sqrt(n) + 1) * (floor_sqrt(n) + 1),
        s * s <= n < (s + 1) * (s + 1) ==> s == floor_sqrt(n),
    decreases n,
{
    let r = floor_sqrt(n);
    if n > 0 {
        let p = floor_sqrt((n - 1) as nat);
        lemma_floor_sqrt((n - 1) as nat, p);
        assert(p * p <= n - 1 < (p + 1) * (p + 1));
        if (p + 1) * (p + 1) <= n {
            assert(r == p + 1);
            assert(r * r <= n < (r + 1) * (r + 1)) by (nonlinear_arith)
                requires
                    r == p + 1,
                    (p + 1) * (p + 1) <= n,
                    n - 1 < (p + 1) * (p + 1),
            ;
        } else {
            assert(r == p);
            assert(r * r <= n < (r + 1) * (r + 1)) by (nonlinear_arith)
                requires
                    r == p,
                    p * p <= n - 1,
                    n < (p + 1) * (p + 1),
            ;
        }
    } else {
        assert(r == 0);
        assert(r * r <= n < (r + 1) * (r + 1)) by (nonlinear_arith)
            requires
                r == 0,
                n == 0,
        ;
    }
    if s * s <= n < (s + 1) * (s + 1) {
        if s < r {
            assert((s + 1) * (s + 1) <= r * r) by (nonlinear_arith)
                requires
                    s + 1 <= r,
            ;
        }
        if r < s {
            assert((r + 1) * (r + 1) <= s * s) by (nonlinear_arith)
                requires
                    r + 1 <= s,
            ;
        }
    }
}

/// The side of the board that a text of `len` characters decodes to: the
/// floor of the square root of `len`, brought into the range from 4 to 16,
/// and raised by one where that is odd.
pub open spec fn decoded_size(len: nat) -> nat {
    let s = floor_sqrt(len);
    let t = if s < 4 {
        4
    } else if s > 16 {
        16
    } else {
        s
    };
    if t % 2 == 1 {
        t + 1
    } else {
        t
    }
}

/// The cell that a character stands for.
pub open spec fn decoded_cell(c: char) -> BinoxCell {
    if c == 'x' || c == 'X' {
        BinoxCell::X
    } else if c == 'o' || c == 'O' {
        BinoxCell::O
    } else {
        BinoxCell::EMPTY
    }
}

/// Whether a character stands for a cell that the puzzle gives.
pub open spec fn decoded_mark(c: char) -> bool {
    c == 'X' || c == 'O'
}

/// The grid that the text `t` decodes to. Characters beyond the grid are
/// ignored, and cells beyond the text are empty.
pub open spec fn decoded_grid(t: Seq<char>) -> Seq<Seq<BinoxCell>> {
    let n = decoded_size(t.len());
    Seq::new(
        n,
        |r: int|
            Seq::new(
                n,
                |c: int|
                    if r * n + c < t.len() {
                        decoded_cell(t[r * n + c])
                    } else {
                        BinoxCell::EMPTY
                    },
            ),
    )
}

/// The overlay of given cells that the text `t` decodes to.
pub open spec fn decoded_marks(t: Seq<char>) -> Seq<Seq<bool>> {
    let n = decoded_size(t.len());
    Seq::new(
        n,
        |r: int| Seq::new(n, |c: int| r * n + c < t.len() && decoded_mark(t[r * n + c])),
    )
}

/// The character that stands for a cell.
pub open spec fn encoded_char(cell: BinoxCell, given: bool) -> char {
    match cell {
        BinoxCell::X => if given {
            'X'
        } else {
            'x'
        },
        BinoxCell::O => if given {
            'O'
        } else {
            'o'
        },
        BinoxCell::EMPTY => '.',
    }
}

/// The text of the grid `g` with the overlay `m`: one character per cell,
/// row by row.
pub open spec fn encoded(g: Seq<Seq<BinoxCell>>, m: Seq<Seq<bool>>) -> Seq<char> {
    let n = g.len() as int;
    Seq::new(g.len() * g.len(), |k: int| encoded_char(g[k / n][k % n], m[k / n][k % n]))
}

/// Cell `(r, c)` of a grid of side `n` is cell number `r * n + c`, counted
/// row by row.
pub proof fn lemma_cell_index(n: int, r: int, c: int)
    requires
        0 <= r < n,
        0 <= c < n,
    ensures
        0 <= r * n + c < n * n,
        (r * n + c) / n == r,
        (r * n + c) % n == c,
{
    lemma_fundamental_div_mod_converse(r * n + c, n, r, c);
    assert(0 <= r * n && r * n + n <= n * n) by (nonlinear_arith)
        requires
            0 <= r < n,
    ;
}

/// Decoding the text of a board gives back its cells and its given cells.
pub proof fn lemma_round_trip(g: Seq<Seq<BinoxCell>>, m: Seq<Seq<bool>>, n: u8)
    requires
        size_ok(n),
        square(g, n as nat),
        square(m, n as nat),
        marks_on_symbols(g, m),
    ensures
        decoded_size(encoded(g, m).len()) == n,
        decoded_grid(encoded(g, m)) == g,
        decoded_marks(encoded(g, m)) == m,
{
    let t = encoded(g, m);
    let k = n as nat;
    assert(t.len() == k * k);
    assert(k * k < (k + 1) * (k + 1)) by (nonlinear_arith);
    lemma_floor_sqrt(k * k, k);
    assert(decoded_size(t.len()) == k);
    let dg = decoded_grid(t);
    let dm = decoded_marks(t);
    assert forall|r: int, c: int| 0 <= r < k && 0 <= c < k implies #[trigger] dg[r][c]
        == g[r][c] by {
        lemma_cell_index(k as int, r, c);
        assert(t[r * k + c] == encoded_char(g[r][c], m[r][c]));
    }
    assert forall|r: int, c: int| 0 <= r < k && 0 <= c < k implies #[trigger] dm[r][c]
        == m[r][c] by {
        lemma_cell_index(k as int, r, c);
        assert(t[r * k + c] == encoded_char(g[r][c], m[r][c]));
        if m[r][c] {
            assert(is_symbol(g[r][c]));
        }
    }
    lemma_same_grid(dg, g, k);
    lemma_same_grid(dm, m, k);
}

/// The side of the board for a text of `len` characters.
fn size_for(len: usize) -> (n: u8)
    ensures
        n == decoded_size(len as nat),
        size_ok(n),
{
    let mut s: u8 = 0;
    let mut found = false;
    while !found && s < 16
        invariant
            s <= 16,
            s * s <= len,
            found ==> len < (s + 1) * (s + 1),
        decreases 16 - s + (if found { 0int } else { 1int }),
    {
        let t: usize = s as usize + 1;
        assert(t * t <= 256) by (nonlinear_arith)
            requires
                t <= 16,
        ;
        if t * t <= len {
            s += 1;
        } else {
            found = true;
        }
    }
    proof {
        let r = floor_sqrt(len as nat);
        lemma_floor_sqrt(len as nat, s as nat);
        if s == 16 && r < 16 {
            assert((r + 1) * (r + 1) <= 16 * 16) by (nonlinear_arith)
                requires
                    r + 1 <= 16,
            ;
        }
    }
    let mut size = s;
    if size < 4 {
        size = 4;
    }
    if size > 16 {
        size = 16;
    }
    if size % 2 == 1 {
        size += 1;
    }
    size
}

impl vstd::std_specs::convert::FromSpecImpl<BinoxCell> for char {
    open spec fn obeys_from_spec() -> bool {
        true
    }

    /// The character that shows a cell: the symbol, or a blank.
    open spec fn from_spec(cell: BinoxCell) -> char {
        match cell {
            BinoxCell::X => 'X',
            BinoxCell::O => 'O',
            BinoxCell::EMPTY => ' ',
        }
    }
}

impl From<BinoxCell> for char {
    /// The character that shows a cell: the symbol, or a blank.
    fn from(cell: BinoxCell) -> (c: char) {
        match cell {
            BinoxCell::X => 'X',
            BinoxCell::O => 'O',
            BinoxCell::EMPTY => ' ',
        }
    }
}

impl Binox {
    /// The board that a text decodes to. The side follows from the length of
    /// the text; characters beyond the board are ignored and cells beyond
    /// the text stay empty.
    pub fn new_from_string(str: String) -> (b: Self)
        ensures
            b.wf(),
            b.spec_size() == decoded_size(str@.len()),
            b@ == decoded_grid(str@),
            b.givens() == decoded_marks(str@),
    {
        let text = str.as_str();
        let len = text.unicode_len();
        let size = size_for(len);
        let mut binox = Binox::new(size).unwrap();
        let (mut i, mut j): (u8, u8) = (0, 0);
        let mut k: usize = 0;
        let ghost n = size as int;
        while j < size && k < len
            invariant
                binox.wf(),
                binox.spec_size() == size,
                size_ok(size),
                n == size,
                len == str@.len(),
                text@ == str@,
                size == decoded_size(str@.len()),
                i < size,
                j <= size,
                k == j * n + i,
                k <= len,
                j == size ==> i == 0,
                forall|r: int, c: int|
                    0 <= r < n && 0 <= c < n ==> #[trigger] binox@[r][c] == (if r < j || (r == j
                        && c < i) {
                        decoded_cell(str@[r * n + c])
                    } else {
                        BinoxCell::EMPTY
                    }),
                forall|r: int, c: int|
                    0 <= r < n && 0 <= c < n ==> #[trigger] binox.givens()[r][c] == ((r < j || (r
                        == j && c < i)) && decoded_mark(str@[r * n + c])),
            decreases len - k,
        {
            let c = text.get_char(k);
            let ghost before = binox;
            match c {
                'x' => {
                    binox.set_x(j, i).unwrap();
                },
                'X' => {
                    binox.set_x(j, i).unwrap();
                    binox.set_default(j, i, true).unwrap()
                },
                'o' => {
                    binox.set_o(j, i).unwrap();
                },
                'O' => {
                    binox.set_o(j, i).unwrap();
                    binox.set_default(j, i, true).unwrap()
                },
                _ => (),
            };
            proof {
                assert(binox@[j as int][i as int] == decoded_cell(c));
                assert(binox.givens()[j as int][i as int] == decoded_mark(c));
                assert(forall|r: int, c: int|
                    0 <= r < n && 0 <= c < n && !(r == j && c == i) ==> #[trigger] binox@[r][c]
                        == before@[r][c]);
                assert(forall|r: int, c: int|
                    0 <= r < n && 0 <= c < n && !(r == j && c == i)
                        ==> #[trigger] binox.givens()[r][c] == before.givens()[r][c]);
                assert((j + 1) * n == j * n + n) by (nonlinear_arith);
            }
            i += 1;
            k += 1;
            if i >= size {
                i = 0;
                j += 1;
            }
        }
        proof {
            let dg = decoded_grid(str@);
            let dm = decoded_marks(str@);
            assert forall|r: int, c: int| 0 <= r < n && 0 <= c < n implies #[trigger] binox@[r][c]
                == dg[r][c] by {
                lemma_index_order(n, r, c, j as int, i as int);
            }
            assert forall|r: int, c: int|
                0 <= r < n && 0 <= c < n implies #[trigger] binox.givens()[r][c] == dm[r][c] by {
                lemma_index_order(n, r, c, j as int, i as int);
            }
            lemma_same_grid(binox@, dg, n as nat);
            lemma_same_grid(binox.givens(), dm, n as nat);
        }
        binox
    }

    /// The text of the board: one character per cell, row by row.
    pub fn as_string(&self) -> (text: String)
        requires
            self.wf(),
        ensures
            text@ == encoded(self@, self.givens()),
    {
        let mut result = String::new();
        let size = self.size();
        let ghost n = size as int;
        let ghost full = encoded(self@, self.givens());
        let mut row: u8 = 0;
        while row < size
            invariant
                self.wf(),
                size == self.spec_size(),
                n == size,
                row <= size,
                full == encoded(self@, self.givens()),
                result@ == full.subrange(0, row * n),
            decreases size - row,
        {
            let mut col: u8 = 0;
            proof {
                assert(0 <= row * n && row * n + n <= n * n) by (nonlinear_arith)
                    requires
                        0 <= row < n,
                ;
            }
            while col < size
                invariant
                    self.wf(),
                    size == self.spec_size(),
                    n == size,
                    row < size,
                    col <= size,
                    full == encoded(self@, self.givens()),
                    0 <= row * n && row * n + n <= n * n,
                    result@ == full.subrange(0, row * n + col),
                decreases size - col,
            {
                let cell = self.get_cell(row, col).unwrap();
                let given = self.is_default(row, col).unwrap();
                proof {
                    reveal_strlit("x");
                    reveal_strlit("o");
                    reveal_strlit("X");
                    reveal_strlit("O");
                    reveal_strlit(".");
                    lemma_cell_index(n, row as int, col as int);
                    assert(full[row * n + col] == encoded_char(cell, given));
                    assert(full.subrange(0, row * n + col + 1) =~= full.subrange(
                        0,
                        row * n + col,
                    ).push(full[row * n + col]));
                }
                match (cell, given) {
                    (BinoxCell::X, false) => result.append("x"),
                    (BinoxCell::O, false) => result.append("o"),
                    (BinoxCell::X, true) => result.append("X"),
                    (BinoxCell::O, true) => result.append("O"),
                    (BinoxCell::EMPTY, _) => result.append("."),
                }
                proof {
                    assert(result@ =~= full.subrange(0, row * n + col + 1));
                }
                col += 1;
            }
            proof {
                assert((row + 1) * n == row * n + n) by (nonlinear_arith);
            }
            row += 1;
        }
        proof {
            assert(full.subrange(0, n * n) =~= full);
        }
        result
    }
}

/// Counting row by row, cell `(r, c)` comes before cell `(j, i)` exactly
/// when its number is the smaller.
pub proof fn lemma_index_order(n: int, r: int, c: int, j: int, i: int)
    requires
        0 <= r,
        0 <= j,
        0 <= c < n,
        0 <= i < n,
    ensures
        (r < j || (r == j && c < i)) == (r * n + c < j * n + i),
{
    if r < j {
        assert(r * n + n <= j * n) by (nonlinear_arith)
            requires
                r + 1 <= j,
                n > 0,
        ;
    } else if j < r {
        assert(j * n + n <= r * n) by (nonlinear_arith)
            requires
                j + 1 <= r,
                n > 0,
        ;
    }
}

} // verus!
