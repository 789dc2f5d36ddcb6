//! A bit-packed line: where one symbol stands along one row or one column,
//! with the number of set positions kept up to date on every change.

use vstd::prelude::*;
use crate::line::{
    complement, count_true, lemma_count_bound, lemma_count_update, lemma_count_zero, line_valid,
    line_valid_simple, no_three_run,
};

verus! {

/// Bit `i` of `data`.
pub open spec fn bit_at(data: u16, i: u16) -> bool {
    (data >> i) & 1 == 1
}

/// The lowest `size` bits of `data`, lowest first.
pub open spec fn bits_of(data: u16, size: nat) -> Seq<bool> {
    Seq::new(size, |i: int| bit_at(data, i as u16))
}

/// No bit of `data` at or above position `size` is set.
pub open spec fn fits(data: u16, size: nat) -> bool {
    forall|i: u16| size <= i < 16 ==> !#[trigger] bit_at(data, i)
}

/// A size that a line or a board can have: even, from 4 to 16.
pub open spec fn size_ok(size: u8) -> bool {
    4 <= size <= 16 && size % 2 == 0
}

/// One line of the board for one symbol: bit `i` of `data` says whether the
/// symbol stands at position `i`, `size` is the width of the line and
/// `count` the number of bits set.
#[derive(Clone, Copy, Debug, PartialEq, Eq, PartialOrd, Ord, Structural)]
pub struct BinRow {
    pub data: u16,
    pub size: u8,
    pub count: u8,
}

impl View for BinRow {
    type V = Seq<bool>;

    /// The line as a sequence of booleans, position 0 first.
    open spec fn view(&self) -> Seq<bool> {
        bits_of(self.data, self.size as nat)
    }
}

/// What setting and clearing bit `p` does to bit `i`, and how bit `p` is
/// tested.
proof fn lemma_bit_set(d: u16, p: u16, i: u16)
    by (bit_vector)
    requires
        p < 16,
        i < 16,
    ensures
        bit_at(d | (1u16 << p), i) == (i == p || bit_at(d, i)),
        bit_at(d & !(1u16 << p), i) == (i != p && bit_at(d, i)),
        (d & (1u16 << p) == 0) == !bit_at(d, p),
{
}

/// No bit of zero is set.
proof fn lemma_bit_zero(i: u16)
    by (bit_vector)
    requires
        i < 16,
    ensures
        !bit_at(0u16, i),
{
}

/// Flipping the lowest `s` bits flips every bit below `s` and no other.
proof fn lemma_bit_mask(s: u16, d: u16, i: u16)
    by (bit_vector)
    requires
        4 <= s <= 16,
        i < 16,
    ensures
        bit_at(d ^ (0xffffu16 >> ((16 - s) as u16)), i) == (if i < s {
            !bit_at(d, i)
        } else {
            bit_at(d, i)
        }),
{
}

/// Where the bit test finds nothing, no three neighbouring bits are set.
proof fn lemma_bit_run(d: u16, i: u16)
    by (bit_vector)
    requires
        i < 14,
        d & (d << 1) & (d >> 1) == 0,
    ensures
        !(bit_at(d, i) && bit_at(d, (i + 1) as u16) && bit_at(d, (i + 2) as u16)),
{
}

/// Bits `i`, `i + 1` and `i + 2` of `d` are all set.
pub open spec fn run_at(d: u16, i: u16) -> bool {
    bit_at(d, i) && bit_at(d, (i + 1) as u16) && bit_at(d, (i + 2) as u16)
}

/// Where no three neighbouring bits are set, the bit test finds nothing.
proof fn lemma_bit_no_run(d: u16)
    by (bit_vector)
    requires
        !run_at(d, 0),
        !run_at(d, 1),
        !run_at(d, 2),
        !run_at(d, 3),
        !run_at(d, 4),
        !run_at(d, 5),
        !run_at(d, 6),
        !run_at(d, 7),
        !run_at(d, 8),
        !run_at(d, 9),
        !run_at(d, 10),
        !run_at(d, 11),
        !run_at(d, 12),
        !run_at(d, 13),
    ensures
        d & (d << 1) & (d >> 1) == 0,
{
}

/// The bit test for a run of three agrees with the model, for data that
/// keeps within its width.
pub proof fn lemma_run_test(data: u16, size: nat)
    requires
        size <= 16,
        fits(data, size),
    ensures
        (data & (data << 1) & (data >> 1) == 0) == no_three_run(bits_of(data, size)),
{
    let s = bits_of(data, size);
    if data & (data << 1) & (data >> 1) == 0 {
        assert forall|i: int| 0 <= i && i + 2 < s.len() implies !(#[trigger] s[i] && s[i + 1]
            && s[i + 2]) by {
            lemma_bit_run(data, i as u16);
        }
    } else if no_three_run(s) {
        assert forall|i: u16| i < 14 implies !run_at(data, i) by {
            if i + 2 < size {
                assert(!(s[i as int] && s[i + 1] && s[i + 2]));
            } else {
                assert(!bit_at(data, (i + 2) as u16));
            }
        }
        lemma_bit_no_run(data);
    }
}

/// Two words with the same sixteen bits are the same.
proof fn lemma_bits_equal(a: u16, b: u16)
    by (bit_vector)
    requires
        bit_at(a, 0) == bit_at(b, 0),
        bit_at(a, 1) == bit_at(b, 1),
        bit_at(a, 2) == bit_at(b, 2),
        bit_at(a, 3) == bit_at(b, 3),
        bit_at(a, 4) == bit_at(b, 4),
        bit_at(a, 5) == bit_at(b, 5),
        bit_at(a, 6) == bit_at(b, 6),
        bit_at(a, 7) == bit_at(b, 7),
        bit_at(a, 8) == bit_at(b, 8),
        bit_at(a, 9) == bit_at(b, 9),
        bit_at(a, 10) == bit_at(b, 10),
        bit_at(a, 11) == bit_at(b, 11),
        bit_at(a, 12) == bit_at(b, 12),
        bit_at(a, 13) == bit_at(b, 13),
        bit_at(a, 14) == bit_at(b, 14),
        bit_at(a, 15) == bit_at(b, 15),
    ensures
        a == b,
{
}

/// Two lines of one width hold the same bits exactly when their models are
/// the same.
pub proof fn lemma_same_data(a: BinRow, b: BinRow)
    requires
        a.wf(),
        b.wf(),
        a.size == b.size,
    ensures
        (a.data == b.data) == (a@ == b@),
{
    if a@ == b@ {
        assert forall|i: u16| i < 16 implies bit_at(a.data, i) == bit_at(b.data, i) by {
            if i < a.size {
                assert(a@[i as int] == b@[i as int]);
            }
        }
        lemma_bits_equal(a.data, b.data);
    }
}

impl BinRow {
    /// The invariant of a line: a size that is allowed, no bit beyond the
    /// width, and a count that is the number of set bits.
    pub open spec fn wf(&self) -> bool {
        &&& size_ok(self.size)
        &&& fits(self.data, self.size as nat)
        &&& self.count as nat == count_true(self@)
    }

    /// What a line of width `size` looks like before anything is set.
    pub open spec fn is_blank(&self, size: u8) -> bool {
        self.size == size && self.data == 0 && self.count == 0
    }

    /// A line of width `size` with no bit set. The width must be even and
    /// lie between 4 and 16.
    pub fn new(size: u8) -> (r: Result<Self, &'static str>)
        ensures
            size_ok(size) == r.is_ok(),
            r matches Ok(row) ==> row.wf() && row.is_blank(size) && row@ =~= Seq::new(
                size as nat,
                |i: int| false,
            ),
            r matches Err(e) ==> e@ == (if size > 16 {
                "size must be at most 16"@
            } else if size < 4 {
                "size must be at least 4"@
            } else {
                "size must be even"@
            }),
    {
        if size > 16 {
            return Err("size must be at most 16");
        }
        if size < 4 {
            return Err("size must be at least 4");
        }
        if size % 2 == 1 {
            return Err("size must be even");
        }
        let row = BinRow { size, data: 0, count: 0 };
        proof {
            assert forall|i: u16| i < 16 implies !bit_at(0u16, i) by {
                lemma_bit_zero(i);
            }
            assert(row@ =~= Seq::new(size as nat, |i: int| false));
            lemma_count_zero(row@);
        }
        Ok(row)
    }

    /// Sets the bit at `position`. The count rises only where the bit was
    /// not set before.
    pub fn set_one(&mut self, position: u8) -> (r: Result<(), &'static str>)
        requires
            old(self).wf(),
        ensures
            final(self).wf(),
            final(self).size == old(self).size,
            r.is_ok() == (position < old(self).size),
            r.is_ok() ==> final(self)@ == old(self)@.update(position as int, true),
            r.is_ok() ==> final(self).data == old(self).data | (1u16 << (position as u16)),
            r.is_ok() ==> final(self).count == old(self).count + (if old(self)@[position as int] {
                0int
            } else {
                1int
            }),
            r matches Err(e) ==> *final(self) == *old(self) && e@
                == "attempted to set one out of range"@,
    {
        if position >= self.size {
            return Err("attempted to set one out of range");
        }
        let mask: u16 = 1u16 << (position as u16);
        proof {
            lemma_count_update(self@, position as int, true);
            lemma_count_bound(self@.update(position as int, true));
            assert forall|i: u16| i < 16
                implies #[trigger] bit_at(self.data | mask, i) == (i == position
                || bit_at(self.data, i)) by {
                lemma_bit_set(self.data, position as u16, i);
            }
            lemma_bit_set(self.data, position as u16, position as u16);
            assert(bits_of(self.data | mask, self.size as nat) =~= self@.update(
                position as int,
                true,
            ));
            assert(fits(self.data | mask, self.size as nat));
        }
        if self.data & mask == 0 {
            self.count += 1
        }
        self.data |= mask;
        Ok(())
    }

    /// Clears the bit at `position`. The count falls only where the bit was
    /// set before.
    pub fn set_zero(&mut self, position: u8) -> (r: Result<(), &'static str>)
        requires
            old(self).wf(),
        ensures
            final(self).wf(),
            final(self).size == old(self).size,
            r.is_ok() == (position < old(self).size),
            r.is_ok() ==> final(self)@ == old(self)@.update(position as int, false),
            r.is_ok() ==> final(self).data == old(self).data & !(1u16 << (position as u16)),
            r.is_ok() ==> final(self).count == old(self).count - (if old(self)@[position as int] {
                1int
            } else {
                0int
            }),
            r matches Err(e) ==> *final(self) == *old(self) && e@
                == "attempted to set zero out of range"@,
    {
        if position >= self.size {
            return Err("attempted to set zero out of range");
        }
        let mask: u16 = 1u16 << (position as u16);
        proof {
            lemma_count_update(self@, position as int, false);
            assert forall|i: u16| i < 16
                implies #[trigger] bit_at(self.data & !mask, i) == (i != position
                && bit_at(self.data, i)) by {
                lemma_bit_set(self.data, position as u16, i);
            }
            lemma_bit_set(self.data, position as u16, position as u16);
            assert(bits_of(self.data & !mask, self.size as nat) =~= self@.update(
                position as int,
                false,
            ));
            assert(fits(self.data & !mask, self.size as nat));
        }
        if self.data & mask != 0 {
            self.count -= 1
        }
        self.data &= !mask;
        Ok(())
    }

    /// Sets the bit at `position` where `value` is true and clears it where
    /// it is not.
    pub fn set_bool(&mut self, position: u8, value: bool) -> (r: Result<(), &'static str>)
        requires
            old(self).wf(),
        ensures
            final(self).wf(),
            final(self).size == old(self).size,
            r.is_ok() == (position < old(self).size),
            r.is_ok() ==> final(self)@ == old(self)@.update(position as int, value),
            r matches Err(e) ==> *final(self) == *old(self) && e@ == (if value {
                "attempted to set one out of range"@
            } else {
                "attempted to set zero out of range"@
            }),
    {
        if value {
            self.set_one(position)
        } else {
            self.set_zero(position)
        }
    }

    /// The bit at `position`.
    pub fn get(&self, position: u8) -> (r: Result<bool, &'static str>)
        requires
            self.wf(),
        ensures
            r.is_ok() == (position < self.size),
            r matches Ok(b) ==> b == self@[position as int],
            r matches Err(e) ==> e@ == "attempted to get out of range"@,
    {
        if position >= self.size {
            return Err("attempted to get out of range");
        }
        let mask: u16 = 1u16 << (position as u16);
        proof {
            lemma_bit_set(self.data, position as u16, position as u16);
        }
        Ok(self.data & mask != 0)
    }

    /// The simple line rule: no three neighbouring bits are set, and at most
    /// half of the bits are.
    pub fn is_valid_simple(&self) -> (r: bool)
        requires
            self.wf(),
        ensures
            r == line_valid_simple(self@),
            r == (no_three_run(self@) && self.count <= self.size / 2),
    {
        proof {
            lemma_run_test(self.data, self.size as nat);
        }
        self.data & (self.data << 1) & (self.data >> 1) == 0 && self.count <= self.size / 2
    }

    /// The strict line rule: the simple rule, and where exactly half of the
    /// bits are set, no three neighbouring bits are clear either.
    pub fn is_valid(&self) -> (r: bool)
        requires
            self.wf(),
        ensures
            r == line_valid(self@),
    {
        if !self.is_valid_simple() {
            return false;
        }
        if self.count != self.size / 2 {
            return true;
        }
        let rest: u16 = self.data ^ (0xffffu16 >> (16 - self.size));
        proof {
            assert forall|i: u16| i < 16 implies bit_at(rest, i) == (if i < self.size {
                !bit_at(self.data, i)
            } else {
                bit_at(self.data, i)
            }) by {
                lemma_bit_mask(self.size as u16, self.data, i);
            }
            assert(bits_of(rest, self.size as nat) =~= complement(self@));
            lemma_run_test(rest, self.size as nat);
        }
        rest & (rest << 1) & (rest >> 1) == 0
    }
}

} // verus!
