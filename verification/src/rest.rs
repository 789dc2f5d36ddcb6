//! When a sweep leaves a grid as it found it.

use vstd::prelude::*;
use crate::grid::{is_symbol, square, with_cell, BinoxCell};
use crate::presolve::{lemma_cell_of, lemma_sweep_square, obeys, presolved, sweep};
use crate::solutions::lemma_sweep_cell;

verus! {

/// A sweep passes cell number `k` of `g` without a change and goes on: the
/// cell holds a symbol, or it is empty and both symbols obey the rule
/// there.
pub open spec fn passes(g: Seq<Seq<BinoxCell>>, strict: bool, k: int) -> bool {
    let r = k / (g.len() as int);
    let c = k % (g.len() as int);
    is_symbol(g[r][c]) || (obeys(with_cell(g, r, c, BinoxCell::X), strict) && obeys(
        with_cell(g, r, c, BinoxCell::O),
        strict,
    ))
}

/// Cell number `k` of `g` is empty and exactly one symbol obeys the rule
/// there: a sweep that comes to it writes that symbol.
pub open spec fn forced(g: Seq<Seq<BinoxCell>>, strict: bool, k: int) -> bool {
    let r = k / (g.len() as int);
    let c = k % (g.len() as int);
    !is_symbol(g[r][c]) && (obeys(with_cell(g, r, c, BinoxCell::X), strict) != obeys(
        with_cell(g, r, c, BinoxCell::O),
        strict,
    ))
}

/// No sweep comes to a forced cell of `g`: before each forced cell lies a
/// cell that the sweep does not pass, and which therefore ends it.
pub open spec fn at_rest(g: Seq<Seq<BinoxCell>>, strict: bool) -> bool {
    forall|k: int|
        0 <= k < g.len() * g.len() && #[trigger] forced(g, strict, k) ==> exists|i: int|
            0 <= i < k && !#[trigger] passes(g, strict, i)
}

/// As long as a sweep comes to no forced cell it leaves the grid as it
/// was, and it goes on while it passes every cell.
pub proof fn lemma_rest_prefix(g: Seq<Seq<BinoxCell>>, strict: bool, k: nat)
    requires
        square(g, g.len()),
        k <= g.len() * g.len(),
        forall|j: int|
            0 <= j < k && #[trigger] forced(g, strict, j) ==> exists|i: int|
                0 <= i < j && !#[trigger] passes(g, strict, i),
    ensures
        sweep(g, k, strict).0 == g,
        sweep(g, k, strict).1 == (forall|i: int| 0 <= i < k ==> #[trigger] passes(g, strict, i)),
    decreases k,
{
    if k > 0 {
        let n = g.len() as int;
        assert(n > 0) by (nonlinear_arith)
            requires
                0 < k <= n * n,
                0 <= n,
        ;
        lemma_rest_prefix(g, strict, (k - 1) as nat);
        lemma_cell_of(n, k - 1);
        let before = sweep(g, (k - 1) as nat, strict);
        if before.1 {
            if forced(g, strict, k - 1) {
                let i = choose|i: int| 0 <= i < k - 1 && !#[trigger] passes(g, strict, i);
                assert(passes(g, strict, i));
            }
            assert(sweep(g, k, strict) == (g, passes(g, strict, k - 1)));
            if passes(g, strict, k - 1) {
                assert forall|i: int| 0 <= i < k implies #[trigger] passes(g, strict, i) by {
                    if i < k - 1 {
                        assert(passes(g, strict, i));
                    }
                }
            }
        } else {
            let i = choose|i: int| 0 <= i < k - 1 && !#[trigger] passes(g, strict, i);
            assert(!passes(g, strict, i));
        }
    }
}

/// A sweep that comes to a forced cell writes a symbol there, and the
/// symbol stays.
pub proof fn lemma_forced_written(g: Seq<Seq<BinoxCell>>, strict: bool, j: int, k: nat)
    requires
        square(g, g.len()),
        0 <= j < k <= g.len() * g.len(),
        forced(g, strict, j),
        forall|i: int| 0 <= i < j ==> #[trigger] passes(g, strict, i),
    ensures
        is_symbol(sweep(g, k, strict).0[j / (g.len() as int)][j % (g.len() as int)]),
    decreases k,
{
    let n = g.len() as int;
    assert(n > 0) by (nonlinear_arith)
        requires
            0 < k <= n * n,
            0 <= n,
    ;
    lemma_cell_of(n, j);
    lemma_cell_of(n, k - 1);
    let before = sweep(g, (k - 1) as nat, strict);
    lemma_sweep_square(g, (k - 1) as nat, strict);
    if k == j + 1 {
        assert forall|m: int| 0 <= m < j && #[trigger] forced(g, strict, m) implies exists|i: int|
            0 <= i < m && !#[trigger] passes(g, strict, i) by {
            assert(passes(g, strict, m));
        }
        lemma_rest_prefix(g, strict, j as nat);
    } else {
        lemma_forced_written(g, strict, j, (k - 1) as nat);
        if before.1 {
            lemma_sweep_cell(before.0, (k - 1) / n, (k - 1) % n, strict, g);
        }
    }
}

/// A sweep leaves a grid as it found it exactly when the grid is at rest.
pub proof fn lemma_sweep_at_rest(g: Seq<Seq<BinoxCell>>, strict: bool)
    requires
        square(g, g.len()),
    ensures
        (presolved(g, strict).0 == g) == at_rest(g, strict),
{
    let n = g.len() as int;
    if at_rest(g, strict) {
        lemma_rest_prefix(g, strict, g.len() * g.len());
    } else {
        let k = choose|k: int|
            0 <= k < g.len() * g.len() && #[trigger] forced(g, strict, k) && !(exists|i: int|
                0 <= i < k && !#[trigger] passes(g, strict, i));
        assert forall|i: int| 0 <= i < k implies #[trigger] passes(g, strict, i) by {
            if !passes(g, strict, i) {
                assert(exists|i: int| 0 <= i < k && !#[trigger] passes(g, strict, i));
            }
        }
        lemma_forced_written(g, strict, k, g.len() * g.len());
        assert(n > 0) by (nonlinear_arith)
            requires
                0 <= k < n * n,
                0 <= n,
        ;
        lemma_cell_of(n, k);
    }
}

/// After a sweep that came through, a second sweep changes no cell exactly
/// when the board that the first one left is at rest. One sweep does not
/// always leave the board at rest: a symbol written late in the sweep can
/// force a cell that the sweep had passed before.
pub proof fn lemma_presolve_twice(g: Seq<Seq<BinoxCell>>, strict: bool)
    requires
        square(g, g.len()),
        presolved(g, strict).1,
    ensures
        (presolved(presolved(g, strict).0, strict).0 == presolved(g, strict).0) == at_rest(
            presolved(g, strict).0,
            strict,
        ),
{
    lemma_sweep_square(g, g.len() * g.len(), strict);
    lemma_sweep_at_rest(presolved(g, strict).0, strict);
}

} // verus!
