//! The mathematical model of one line of the puzzle: a sequence of booleans
//! that says, position by position, where one symbol stands.

use vstd::prelude::*;

verus! {

/// The number of positions of `s` that are set.
pub open spec fn count_true(s: Seq<bool>) -> nat
    decreases s.len(),
{
    if s.len() == 0 {
        0
    } else {
        count_true(s.drop_last()) + if s.last() { 1nat } else { 0nat }
    }
}

/// No three neighbouring positions of `s` are all set.
pub open spec fn no_three_run(s: Seq<bool>) -> bool {
    forall|i: int| 0 <= i && i + 2 < s.len() ==> !(#[trigger] s[i] && s[i + 1] && s[i + 2])
}

/// The line that is set exactly where `s` is not.
pub open spec fn complement(s: Seq<bool>) -> Seq<bool> {
    Seq::new(s.len(), |i: int| !s[i])
}

/// The local rule for one symbol on one line: no run of three, and at most
/// half of the line taken.
pub open spec fn line_valid_simple(s: Seq<bool>) -> bool {
    no_three_run(s) && count_true(s) <= s.len() / 2
}

/// The strict local rule: the simple rule, and once the symbol holds exactly
/// half of the line, the other half must be free of runs of three as well.
pub open spec fn line_valid(s: Seq<bool>) -> bool {
    line_valid_simple(s) && (count_true(s) == s.len() / 2 ==> no_three_run(complement(s)))
}

/// A line never holds more set positions than it is long.
pub proof fn lemma_count_bound(s: Seq<bool>)
    ensures
        count_true(s) <= s.len(),
    decreases s.len(),
{
    if s.len() > 0 {
        lemma_count_bound(s.drop_last());
    }
}

/// Writing `v` at position `i` moves the count by the difference between the
/// old and the new value there.
pub proof fn lemma_count_update(s: Seq<bool>, i: int, v: bool)
    requires
        0 <= i < s.len(),
    ensures
        count_true(s.update(i, v)) + (if s[i] { 1int } else { 0int }) == count_true(s) + (if v {
            1int
        } else {
            0int
        }),
    decreases s.len(),
{
    let t = s.update(i, v);
    if i == s.len() - 1 {
        assert(t.drop_last() =~= s.drop_last());
    } else {
        lemma_count_update(s.drop_last(), i, v);
        assert(t.drop_last() =~= s.drop_last().update(i, v));
    }
}

/// A line with no set position counts zero, and the other way round.
pub proof fn lemma_count_zero(s: Seq<bool>)
    ensures
        count_true(s) == 0 <==> (forall|i: int| 0 <= i < s.len() ==> !s[i]),
    decreases s.len(),
{
    if s.len() > 0 {
        lemma_count_zero(s.drop_last());
        let d = s.drop_last();
        if count_true(s) == 0 {
            assert forall|i: int| 0 <= i < s.len() implies !s[i] by {
                if i < s.len() - 1 {
                    assert(d[i] == s[i]);
                }
            }
        }
        if forall|i: int| 0 <= i < s.len() ==> !s[i] {
            assert forall|i: int| 0 <= i < d.len() implies !d[i] by {
                assert(d[i] == s[i]);
            }
        }
    }
}

/// A line counts its whole length exactly when every position is set.
pub proof fn lemma_count_full(s: Seq<bool>)
    ensures
        count_true(s) == s.len() <==> (forall|i: int| 0 <= i < s.len() ==> s[i]),
    decreases s.len(),
{
    if s.len() > 0 {
        let d = s.drop_last();
        lemma_count_full(d);
        lemma_count_bound(d);
        if count_true(s) == s.len() {
            assert forall|i: int| 0 <= i < s.len() implies s[i] by {
                if i < s.len() - 1 {
                    assert(d[i] == s[i]);
                }
            }
        }
        if forall|i: int| 0 <= i < s.len() ==> s[i] {
            assert forall|i: int| 0 <= i < d.len() implies d[i] by {
                assert(d[i] == s[i]);
            }
        }
    }
}

/// Two lines that are never set at the same position count, together, what
/// their union counts.
pub proof fn lemma_count_disjoint(a: Seq<bool>, b: Seq<bool>)
    requires
        a.len() == b.len(),
        forall|i: int| 0 <= i < a.len() ==> !(a[i] && b[i]),
    ensures
        count_true(a) + count_true(b) == count_true(Seq::new(a.len(), |i: int| a[i] || b[i])),
    decreases a.len(),
{
    let u = Seq::new(a.len(), |i: int| a[i] || b[i]);
    if a.len() > 0 {
        let ad = a.drop_last();
        let bd = b.drop_last();
        lemma_count_disjoint(ad, bd);
        assert(u.drop_last() =~= Seq::new(ad.len(), |i: int| ad[i] || bd[i]));
    }
}

/// A line that is set wherever another is, counts at least as much.
pub proof fn lemma_count_monotone(a: Seq<bool>, b: Seq<bool>)
    requires
        a.len() == b.len(),
        forall|i: int| 0 <= i < a.len() ==> (a[i] ==> b[i]),
    ensures
        count_true(a) <= count_true(b),
        count_true(a) == count_true(b) ==> a =~= b,
    decreases a.len(),
{
    if a.len() > 0 {
        let ad = a.drop_last();
        let bd = b.drop_last();
        lemma_count_monotone(ad, bd);
        if count_true(a) == count_true(b) {
            assert forall|i: int| 0 <= i < a.len() implies a[i] == b[i] by {
                if i < a.len() - 1 {
                    assert(ad[i] == a[i] && bd[i] == b[i]);
                }
            }
        }
    }
}

/// A line that is set only where a valid line is set is valid too, and
/// where it holds half of the positions it is that line.
pub proof fn lemma_line_valid_subset(a: Seq<bool>, b: Seq<bool>)
    requires
        a.len() == b.len(),
        forall|i: int| 0 <= i < a.len() ==> (a[i] ==> b[i]),
    ensures
        line_valid_simple(b) ==> line_valid_simple(a),
        line_valid(b) ==> line_valid(a),
        line_valid_simple(b) && count_true(a) == a.len() / 2 ==> a == b,
{
    lemma_count_monotone(a, b);
    if line_valid_simple(b) {
        assert forall|i: int| 0 <= i && i + 2 < a.len() implies !(#[trigger] a[i] && a[i + 1]
            && a[i + 2]) by {
            assert(!(b[i] && b[i + 1] && b[i + 2]));
        }
        if count_true(a) == a.len() / 2 {
            assert(a =~= b);
        }
    }
}

} // verus!
