//! Fixed-width bit registers and the three constraint families built on them.

use vstd::prelude::*;

verus! {

/// Bit positions of one register that the search can use: positions 1 to 63
/// of a 64-bit word. Position 0 stays unused, since rows and columns are
/// numbered from 1.
pub const USABLE_BITS: usize = 63;

/// Largest board whose diagonals fit a register: a board of size `n` needs
/// `2 * n` usable bit positions.
pub const MAX_BOARD_SIZE: usize = 31;

/// Bit position of column `t` in the register of occupied columns.
pub open spec fn column_index(t: int) -> int {
    t
}

/// Bit position, in the register of ascending diagonals, of the diagonal
/// through column `t` of row `l`.
pub open spec fn ascending_index(t: int, l: int) -> int {
    t + l - 1
}

/// Bit position, in the register of descending diagonals of an `n`-board, of
/// the diagonal through column `t` of row `l`.
pub open spec fn descending_index(n: nat, t: int, l: int) -> int {
    t + n - l
}

/// Whether bit `t` of the word `x` is set. Positions outside the word are
/// never set.
pub open spec fn reg_bit(x: u64, t: int) -> bool {
    0 <= t < 64 && (x >> (t as u64)) & 1 == 1
}

/// The word `x` with bit `t` replaced by the lowest bit of `v`.
pub open spec fn reg_with(x: u64, t: u64, v: u64) -> u64 {
    (x & !(1u64 << t)) | ((v & 1u64) << t)
}

/// Every bit of `reg_with(x, t, v)` other than `t` is the bit of `x`; bit `t`
/// is set exactly when `v` is odd.
pub proof fn lemma_reg_with_bits(x: u64, t: u64, v: u64)
    requires
        t < 64,
    ensures
        forall|i: int|
            reg_bit(reg_with(x, t, v), i) == (if i == t {
                v % 2 == 1
            } else {
                reg_bit(x, i)
            }),
{
    assert forall|i: int|
        reg_bit(reg_with(x, t, v), i) == (if i == t {
            v % 2 == 1
        } else {
            reg_bit(x, i)
        }) by {
        if 0 <= i < 64 {
            let j = i as u64;
            assert((((x & !(1u64 << t)) | ((v & 1u64) << t)) >> j) & 1 == (if j == t {
                v % 2
            } else {
                (x >> j) & 1
            })) by (bit_vector)
                requires
                    t < 64,
                    j < 64,
            ;
        }
    }
}

/// Reads bit `t` of `x`: 1 if it is set, 0 if it is clear.
pub fn reg_r(x: u64, t: usize) -> (bit: u64)
    requires
        t < 64,
    ensures
        bit == (if reg_bit(x, t as int) { 1u64 } else { 0u64 }),
{
    let shift: u64 = t as u64;
    let bit: u64 = (x >> shift) & 1;
    assert((x >> shift) & 1 == 0 || (x >> shift) & 1 == 1) by (bit_vector);
    bit
}

/// Writes the lowest bit of `v` into bit `t` of `x`, leaving the other bits
/// as they were.
pub fn reg_w(x: &mut u64, t: usize, v: u64)
    requires
        t < 64,
    ensures
        *final(x) == reg_with(*old(x), t as u64, v),
        forall|i: int|
            reg_bit(*final(x), i) == (if i == t {
                v % 2 == 1
            } else {
                reg_bit(*old(x), i)
            }),
{
    let shift: u64 = t as u64;
    proof {
        lemma_reg_with_bits(*x, shift, v);
    }
    *x = (*x & !(1u64 << shift)) | ((v & 1u64) << shift);
}

/// The positions of the bits that are set in `x`.
pub open spec fn reg_bits(x: u64) -> Set<int> {
    Set::new(|i: int| reg_bit(x, i))
}

/// No bit of the zero word is set.
pub proof fn lemma_reg_bits_zero()
    ensures
        reg_bits(0) == Set::<int>::empty(),
{
    assert forall|i: int| !reg_bit(0, i) by {
        if 0 <= i < 64 {
            let j = i as u64;
            assert((0u64 >> j) & 1 == 0) by (bit_vector);
        }
    }
    assert(reg_bits(0) =~= Set::<int>::empty());
}

/// The board size was refused: a board of `board_size` rows needs more bit
/// positions than a register has.
#[derive(Clone, Copy, Debug, PartialEq, Eq, Structural)]
pub struct ConfigurationError {
    /// The board size that was asked for.
    pub board_size: usize,
}

/// The three constraint families of one search, each packed into a register:
/// occupied columns, occupied ascending diagonals, occupied descending
/// diagonals.
#[derive(Debug)]
pub struct ConstraintRegisters {
    n: usize,
    a: u64,
    b: u64,
    c: u64,
}

impl ConstraintRegisters {
    /// Size of the board that the registers were made for.
    pub closed spec fn board_size(&self) -> nat {
        self.n as nat
    }

    /// Bit positions set in the column register.
    pub closed spec fn columns(&self) -> Set<int> {
        reg_bits(self.a)
    }

    /// Bit positions set in the register of ascending diagonals.
    pub closed spec fn ascending(&self) -> Set<int> {
        reg_bits(self.b)
    }

    /// Bit positions set in the register of descending diagonals.
    pub closed spec fn descending(&self) -> Set<int> {
        reg_bits(self.c)
    }

    /// The board fits the registers.
    pub open spec fn wf(&self) -> bool {
        self.board_size() <= MAX_BOARD_SIZE
    }

    /// Column `t` and row `l` lie on the board.
    pub open spec fn on_board(&self, t: int, l: int) -> bool {
        1 <= t <= self.board_size() && 1 <= l <= self.board_size()
    }

    /// The column of square (`t`, `l`) or one of its two diagonals is
    /// occupied.
    pub open spec fn has_conflict(&self, t: int, l: int) -> bool {
        ||| self.columns().contains(column_index(t))
        ||| self.ascending().contains(ascending_index(t, l))
        ||| self.descending().contains(descending_index(self.board_size(), t, l))
    }

    /// The column of square (`t`, `l`) and both its diagonals are occupied.
    pub open spec fn holds(&self, t: int, l: int) -> bool {
        &&& self.columns().contains(column_index(t))
        &&& self.ascending().contains(ascending_index(t, l))
        &&& self.descending().contains(descending_index(self.board_size(), t, l))
    }

    /// Empty registers for a board of size `n`. Refused when the board does
    /// not fit: when `2 * n` exceeds the usable bit positions.
    pub fn new(n: usize) -> (made: Result<Self, ConfigurationError>)
        ensures
            made is Ok <==> n <= MAX_BOARD_SIZE,
            made matches Ok(r) ==> {
                &&& r.wf()
                &&& r.board_size() == n
                &&& r.columns() == Set::<int>::empty()
                &&& r.ascending() == Set::<int>::empty()
                &&& r.descending() == Set::<int>::empty()
            },
            made matches Err(e) ==> e.board_size == n,
    {
        if n > USABLE_BITS / 2 {
            return Err(ConfigurationError { board_size: n });
        }
        proof {
            lemma_reg_bits_zero();
        }
        Ok(ConstraintRegisters { n, a: 0, b: 0, c: 0 })
    }

    /// Whether a queen on square (`t`, `l`) would share its column or one of
    /// its diagonals with a queen already placed.
    pub fn conflict(&self, t: usize, l: usize) -> (hit: bool)
        requires
            self.wf(),
            self.on_board(t as int, l as int),
        ensures
            hit == self.has_conflict(t as int, l as int),
    {
        reg_r(self.a, t) != 0 || reg_r(self.b, t + l - 1) != 0 || reg_r(self.c, t + self.n - l)
            != 0
    }

    /// Occupies the column and the two diagonals of square (`t`, `l`).
    pub fn place(&mut self, t: usize, l: usize)
        requires
            old(self).wf(),
            old(self).on_board(t as int, l as int),
            !old(self).has_conflict(t as int, l as int),
        ensures
            final(self).board_size() == old(self).board_size(),
            final(self).columns() == old(self).columns().insert(column_index(t as int)),
            final(self).ascending() == old(self).ascending().insert(
                ascending_index(t as int, l as int),
            ),
            final(self).descending() == old(self).descending().insert(
                descending_index(old(self).board_size(), t as int, l as int),
            ),
    {
        reg_w(&mut self.a, t, 1);
        reg_w(&mut self.b, t + l - 1, 1);
        reg_w(&mut self.c, t + self.n - l, 1);
        proof {
            assert(self.columns() =~= old(self).columns().insert(column_index(t as int)));
            assert(self.ascending() =~= old(self).ascending().insert(
                ascending_index(t as int, l as int),
            ));
            assert(self.descending() =~= old(self).descending().insert(
                descending_index(old(self).board_size(), t as int, l as int),
            ));
        }
    }

    /// Frees the column and the two diagonals of square (`t`, `l`), which a
    /// queen placed there had occupied.
    pub fn remove(&mut self, t: usize, l: usize)
        requires
            old(self).wf(),
            old(self).on_board(t as int, l as int),
            old(self).holds(t as int, l as int),
        ensures
            final(self).board_size() == old(self).board_size(),
            final(self).columns() == old(self).columns().remove(column_index(t as int)),
            final(self).ascending() == old(self).ascending().remove(
                ascending_index(t as int, l as int),
            ),
            final(self).descending() == old(self).descending().remove(
                descending_index(old(self).board_size(), t as int, l as int),
            ),
    {
        reg_w(&mut self.c, t + self.n - l, 0);
        reg_w(&mut self.b, t + l - 1, 0);
        reg_w(&mut self.a, t, 0);
        proof {
            assert(self.columns() =~= old(self).columns().remove(column_index(t as int)));
            assert(self.ascending() =~= old(self).ascending().remove(
                ascending_index(t as int, l as int),
            ));
            assert(self.descending() =~= old(self).descending().remove(
                descending_index(old(self).board_size(), t as int, l as int),
            ));
        }
    }
}

} // verus!
