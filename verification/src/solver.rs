//! The exhaustive search for the solutions of a board: none, exactly one,
//! or more than one.

use vstd::prelude::*;
use vstd::std_specs::ops::AddSpec;
use crate::board::Binox;
use crate::codec::lemma_cell_index;
use crate::grid::{empties, grid_full, grid_valid, is_symbol, solves, BinoxCell};
use crate::presolve::PresolveResult;
use crate::solutions::{
    lemma_branch, lemma_empties_extends, lemma_empties_fill, lemma_fill_extends,
    lemma_full_solution, lemma_invalid_no_solution, lemma_sweep, no_solution, only_solution,
    two_solutions, unique,
};

verus! {

/// What a search found: no solution, one solution, or two different ones.
pub enum BinoxSolution {
    Zero,
    One(Binox),
    Multiple(Binox, Binox),
}

impl BinoxSolution {
    /// The number of solutions that the value stands for, where two stands
    /// for two or more.
    pub open spec fn count(self) -> nat {
        match self {
            BinoxSolution::Zero => 0,
            BinoxSolution::One(_) => 1,
            BinoxSolution::Multiple(_, _) => 2,
        }
    }

    /// The value answers the search on a board with the grid `g` and the
    /// given cells `marks`. `Zero`: nothing solves `g`. `One`: the board
    /// solves `g`, and where more than one solution was looked for, nothing
    /// else does. `Multiple`: more than one solution was looked for, and the
    /// two boards are different solutions of `g`. Every board that is handed
    /// back has the given cells `marks`.
    pub open spec fn answers(self, g: Seq<Seq<BinoxCell>>, marks: Seq<Seq<bool>>,
        multiple: bool) -> bool {
        match self {
            BinoxSolution::Zero => no_solution(g),
            BinoxSolution::One(a) => {
                &&& a.wf()
                &&& a.givens() == marks
                &&& solves(g, a@)
                &&& multiple ==> only_solution(g, a@)
            },
            BinoxSolution::Multiple(a, b) => {
                &&& multiple
                &&& a.wf()
                &&& b.wf()
                &&& a.givens() == marks
                &&& b.givens() == marks
                &&& solves(g, a@)
                &&& solves(g, b@)
                &&& a@ != b@
            },
        }
    }
}

impl vstd::std_specs::ops::AddSpecImpl for BinoxSolution {
    open spec fn obeys_add_spec() -> bool {
        true
    }

    open spec fn add_req(self, rhs: BinoxSolution) -> bool {
        true
    }

    /// The merge of two search results: two solutions absorb everything,
    /// none is the neutral element, and one and one make two.
    open spec fn add_spec(self, rhs: BinoxSolution) -> BinoxSolution {
        match self {
            BinoxSolution::Multiple(_, _) => self,
            BinoxSolution::One(a) => match rhs {
                BinoxSolution::Zero => BinoxSolution::One(a),
                BinoxSolution::One(b) => BinoxSolution::Multiple(a, b),
                BinoxSolution::Multiple(_, _) => rhs,
            },
            BinoxSolution::Zero => rhs,
        }
    }
}

impl core::ops::Add for BinoxSolution {
    type Output = Self;

    /// Merges two search results.
    fn add(self, rhs: Self) -> (r: Self) {
        match self {
            BinoxSolution::Multiple(a, b) => BinoxSolution::Multiple(a, b),
            BinoxSolution::One(a) => match rhs {
                BinoxSolution::Zero => BinoxSolution::One(a),
                BinoxSolution::One(b) => BinoxSolution::Multiple(a, b),
                BinoxSolution::Multiple(c, d) => BinoxSolution::Multiple(c, d),
            },
            BinoxSolution::Zero => rhs,
        }
    }
}

/// The merge counts the solutions of both sides together, up to two; so it
/// is commutative and associative in what it counts.
pub proof fn lemma_merge_counts(a: BinoxSolution, b: BinoxSolution, c: BinoxSolution)
    ensures
        a.add_spec(b).count() == if a.count() + b.count() < 2 {
            a.count() + b.count()
        } else {
            2
        },
        a.add_spec(b).count() == b.add_spec(a).count(),
        a.add_spec(b).add_spec(c).count() == a.add_spec(b.add_spec(c)).count(),
        a.add_spec(BinoxSolution::Zero) == a,
        BinoxSolution::Zero.add_spec(a) == a,
{
}

/// An answer for one grid answers for every grid with the same solutions.
pub proof fn lemma_answers_same(
    r: BinoxSolution,
    g: Seq<Seq<BinoxCell>>,
    h: Seq<Seq<BinoxCell>>,
    marks: Seq<Seq<bool>>,
    multiple: bool,
)
    requires
        r.answers(g, marks, multiple),
        forall|s: Seq<Seq<BinoxCell>>| solves(g, s) == #[trigger] solves(h, s),
    ensures
        r.answers(h, marks, multiple),
{
    match r {
        BinoxSolution::Zero => {
            assert forall|s: Seq<Seq<BinoxCell>>| !#[trigger] solves(h, s) by {
                assert(!solves(g, s));
            }
        },
        BinoxSolution::One(a) => {
            assert(solves(h, a@));
            if multiple {
                assert forall|s: Seq<Seq<BinoxCell>>| #[trigger] solves(h, s) implies s == a@ by {
                    assert(solves(g, s));
                }
            }
        },
        BinoxSolution::Multiple(a, b) => {
            assert(solves(h, a@));
            assert(solves(h, b@));
        },
    }
}

/// An answer to a search for more than one solution, on a grid that has
/// exactly one, is that one solution.
pub proof fn lemma_unique_answer(r: BinoxSolution, g: Seq<Seq<BinoxCell>>, marks: Seq<Seq<bool>>)
    requires
        r.answers(g, marks, true),
        unique(g),
    ensures
        r matches BinoxSolution::One(a) && only_solution(g, a@),
{
    let u = choose|u: Seq<Seq<BinoxCell>>| only_solution(g, u);
    match r {
        BinoxSolution::Zero => {
            assert(solves(g, u));
        },
        BinoxSolution::One(a) => {},
        BinoxSolution::Multiple(a, b) => {
            assert(solves(g, a@) && solves(g, b@));
        },
    }
}

/// The numbers below `n`, the even ones first and then the odd ones, each
/// part in rising order.
pub open spec fn alternated(n: nat) -> Seq<u8> {
    Seq::new(
        n,
        |i: int|
            if i < (n + 1) / 2 {
                (2 * i) as u8
            } else {
                (2 * (i - (n + 1) / 2) + 1) as u8
            },
    )
}

/// The place of `v` in `alternated(n)`.
pub open spec fn alternated_rank(n: nat, v: int) -> int {
    if v % 2 == 0 {
        v / 2
    } else {
        (n + 1) / 2 + v / 2
    }
}

/// The numbers below `n`, the even ones first and then the odd ones.
pub fn alternated_range(n: u8) -> (r: Vec<u8>)
    ensures
        r@ == alternated(n as nat),
{
    let mut result: Vec<u8> = Vec::new();
    let mut i: u8 = 0;
    while i < n
        invariant
            i <= n,
            result@ == Seq::new(((i + 1) / 2) as nat, |k: int| (2 * k) as u8),
        decreases n - i,
    {
        if i % 2 == 0 {
            result.push(i);
            assert(result@ =~= Seq::new(((i + 2) / 2) as nat, |k: int| (2 * k) as u8));
        }
        i += 1;
    }
    let ghost evens = result@;
    let mut i: u8 = 0;
    while i < n
        invariant
            i <= n,
            evens == Seq::new(((n + 1) / 2) as nat, |k: int| (2 * k) as u8),
            result@ == evens + Seq::new((i / 2) as nat, |k: int| (2 * k + 1) as u8),
        decreases n - i,
    {
        if i % 2 == 1 {
            result.push(i);
            assert(result@ =~= evens + Seq::new(((i + 1) / 2) as nat, |k: int| (2 * k + 1) as u8));
        }
        i += 1;
    }
    assert(result@ =~= alternated(n as nat));
    result
}

/// Every number below `n` stands in `alternated(n)`, at its rank, and the
/// entries of `alternated(n)` are below `n`.
pub proof fn lemma_alternated(n: nat, v: int)
    requires
        n <= 255,
        0 <= v < n,
    ensures
        0 <= alternated_rank(n, v) < n,
        alternated(n)[alternated_rank(n, v)] == v,
        0 <= alternated(n)[v] < n,
        alternated_rank(n, alternated(n)[v] as int) == v,
{
}

impl Binox {
    /// The first empty cell, where rows and columns are taken in the order
    /// of `alternated`; `None` when the board is full.
    pub fn first_empty(&self) -> (r: Option<(u8, u8)>)
        requires
            self.wf(),
        ensures
            r is None == grid_full(self@),
            r matches Some((row, col)) ==> {
                &&& row < self.spec_size()
                &&& col < self.spec_size()
                &&& self@[row as int][col as int] == BinoxCell::EMPTY
                &&& forall|i: int, j: int|
                    0 <= i < self.spec_size() && 0 <= j < self.spec_size() && (alternated_rank(
                        self.spec_size() as nat,
                        i,
                    ) < alternated_rank(self.spec_size() as nat, row as int) || (i == row
                        && alternated_rank(self.spec_size() as nat, j) < alternated_rank(
                        self.spec_size() as nat,
                        col as int,
                    ))) ==> is_symbol(#[trigger] self@[i][j])
            },
    {
        let size = self.size();
        let order = alternated_range(size);
        let ghost n = size as nat;
        let mut a: usize = 0;
        while a < order.len()
            invariant
                self.wf(),
                size == self.spec_size(),
                n == size,
                order@ == alternated(n),
                a <= n,
                forall|i: int, j: int|
                    0 <= i < n && 0 <= j < n && alternated_rank(n, i) < a ==> is_symbol(
                        #[trigger] self@[i][j],
                    ),
            decreases n - a,
        {
            let row = order[a];
            proof {
                lemma_alternated(n, a as int);
            }
            let mut b: usize = 0;
            while b < order.len()
                invariant
                    self.wf(),
                    size == self.spec_size(),
                    n == size,
                    order@ == alternated(n),
                    a < n,
                    b <= n,
                    row == order@[a as int],
                    row < size,
                    alternated_rank(n, row as int) == a,
                    forall|i: int, j: int|
                        0 <= i < n && 0 <= j < n && alternated_rank(n, i) < a ==> is_symbol(
                            #[trigger] self@[i][j],
                        ),
                    forall|j: int|
                        0 <= j < n && alternated_rank(n, j) < b ==> is_symbol(
                            #[trigger] self@[row as int][j],
                        ),
                decreases n - b,
            {
                let col = order[b];
                proof {
                    lemma_alternated(n, b as int);
                }
                if self.get_cell(row, col).unwrap() == BinoxCell::EMPTY {
                    proof {
                        assert(!is_symbol(self@[row as int][col as int]));
                        assert forall|i: int, j: int|
                            0 <= i < n && 0 <= j < n && (alternated_rank(n, i) < alternated_rank(
                                n,
                                row as int,
                            ) || (i == row && alternated_rank(n, j) < alternated_rank(
                                n,
                                col as int,
                            ))) implies is_symbol(#[trigger] self@[i][j]) by {
                            if i == row {
                                assert(is_symbol(self@[row as int][j]));
                            }
                        }
                    }
                    return Some((row, col));
                }
                proof {
                    assert forall|j: int|
                        0 <= j < n && alternated_rank(n, j) < b + 1 implies is_symbol(
                        #[trigger] self@[row as int][j],
                    ) by {
                        lemma_alternated(n, j);
                        if alternated_rank(n, j) == b {
                            assert(j == col);
                        }
                    }
                }
                b += 1;
            }
            proof {
                assert forall|i: int, j: int|
                    0 <= i < n && 0 <= j < n && alternated_rank(n, i) < a + 1 implies is_symbol(
                    #[trigger] self@[i][j],
                ) by {
                    lemma_alternated(n, i);
                    lemma_alternated(n, j);
                    if alternated_rank(n, i) == a {
                        assert(i == row);
                        assert(is_symbol(self@[row as int][j]));
                    }
                }
            }
            a += 1;
        }
        proof {
            assert forall|i: int, j: int| 0 <= i < n && 0 <= j < n implies is_symbol(
                #[trigger] self@[i][j],
            ) by {
                lemma_alternated(n, i);
            }
        }
        None
    }

    /// Searches for the solutions of the board. With `multiple` the search
    /// tells one solution from more than one; without it the search ends at
    /// the first solution it meets.
    pub fn solve(&self, multiple: bool) -> (r: BinoxSolution)
        requires
            self.wf(),
        ensures
            r.answers(self@, self.givens(), multiple),
            r is Zero == no_solution(self@),
            multiple ==> (r is One == unique(self@)),
            multiple ==> (r is Multiple == two_solutions(self@)),
            !multiple ==> !(r is Multiple),
            !grid_valid(self@) ==> r is Zero,
            grid_full(self@) && grid_valid(self@) ==> (r matches BinoxSolution::One(a) && a@
                == self@),
        decreases empties(self@),
    {
        let ghost g = self@;
        let ghost n = self.spec_size() as nat;
        match (self.is_full(), self.is_valid()) {
            (true, true) => {
                proof {
                    lemma_full_solution(g, g);
                    assert forall|h: Seq<Seq<BinoxCell>>| #[trigger] solves(g, h) implies h
                        == g by {
                        lemma_full_solution(g, h);
                    }
                }
                return BinoxSolution::One(self.clone());
            },
            (false, true) => (),
            (_, false) => {
                proof {
                    lemma_invalid_no_solution(g);
                }
                return BinoxSolution::Zero;
            },
        }
        let mut x_clone = self.clone();
        let swept = x_clone.presolve();
        let ghost p = x_clone@;
        proof {
            assert forall|h: Seq<Seq<BinoxCell>>| solves(p, h) == #[trigger] solves(g, h) && (
            solves(g, h) ==> swept is Good) by {
                lemma_sweep(g, n * n, true, h);
            }
            lemma_sweep(g, n * n, true, g);
            lemma_empties_extends(g, p, n * n);
        }
        match swept {
            PresolveResult::Good => (),
            PresolveResult::Bad => {
                return BinoxSolution::Zero;
            },
        };
        let (row, col) = match x_clone.first_empty() {
            Some(cell) => cell,
            None => {
                proof {
                    lemma_full_solution(p, p);
                    assert forall|h: Seq<Seq<BinoxCell>>| #[trigger] solves(g, h) implies h
                        == p by {
                        assert(solves(p, h));
                        lemma_full_solution(p, h);
                    }
                }
                if x_clone.is_valid() {
                    assert(solves(g, p));
                    return BinoxSolution::One(x_clone);
                } else {
                    return BinoxSolution::Zero;
                }
            },
        };
        let mut o_clone = x_clone.clone();
        x_clone.set_x(row, col).unwrap();
        o_clone.set_o(row, col).unwrap();
        let ghost px = x_clone@;
        let ghost po = o_clone@;
        proof {
            lemma_cell_index(n as int, row as int, col as int);
            lemma_empties_fill(p, row as int, col as int, BinoxCell::X, n * n);
            lemma_empties_fill(p, row as int, col as int, BinoxCell::O, n * n);
            lemma_fill_extends(p, row as int, col as int, BinoxCell::X);
            lemma_fill_extends(p, row as int, col as int, BinoxCell::O);
            assert forall|h: Seq<Seq<BinoxCell>>| #[trigger] solves(g, h) == (solves(px, h)
                || solves(po, h)) && !(solves(px, h) && solves(po, h)) by {
                assert(solves(p, h) == solves(g, h));
                lemma_branch(p, row as int, col as int, h);
            }
        }
        let x_solved = x_clone.solve(multiple);
        match (x_solved, multiple) {
            (BinoxSolution::Zero, true) => {
                let r = o_clone.solve(true);
                proof {
                    lemma_answers_same(r, po, g, self.givens(), true);
                }
                r
            },
            (BinoxSolution::Zero, false) => {
                let r = o_clone.solve(false);
                proof {
                    lemma_answers_same(r, po, g, self.givens(), false);
                }
                r
            },
            (BinoxSolution::One(a), true) => {
                let other = o_clone.solve(false);
                proof {
                    lemma_branch(p, row as int, col as int, a@);
                    if let BinoxSolution::One(b) = &other {
                        lemma_branch(p, row as int, col as int, b@);
                    }
                }
                BinoxSolution::One(a) + other
            },
            (BinoxSolution::One(a), false) => BinoxSolution::One(a),
            (BinoxSolution::Multiple(a, b), true) => BinoxSolution::Multiple(a, b),
            (BinoxSolution::Multiple(a, _), false) => BinoxSolution::One(a),
        }
    }
}

} // verus!
