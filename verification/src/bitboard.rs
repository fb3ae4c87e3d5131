//! Bitboard primitives: a `u64` holds one bit per square, square `i` in bit `i`.
//!
//! Everything here is stated through [`has_bit`], so the rules above can speak
//! of squares instead of shift-and-mask arithmetic.

use vstd::prelude::*;

verus! {

/// Square `i` is set in `mask`.
pub open spec fn has_bit(mask: u64, i: int) -> bool {
    0 <= i < 64 && (mask >> (i as u64)) & 1u64 == 1u64
}

/// The mask holding square `i` alone.
pub open spec fn single(i: int) -> u64 {
    1u64 << (i as u64)
}

/// Two masks hold the same squares.
pub open spec fn same_bits(a: u64, b: u64) -> bool {
    forall|i: int| 0 <= i < 64 ==> has_bit(a, i) == has_bit(b, i)
}

/// The set squares below `n`, in increasing order.
pub open spec fn squares_below(mask: u64, n: nat) -> Seq<u8>
    decreases n,
{
    if n == 0 {
        Seq::empty()
    } else {
        let rest = squares_below(mask, (n - 1) as nat);
        if has_bit(mask, n - 1) {
            rest.push((n - 1) as u8)
        } else {
            rest
        }
    }
}

/// Every set square of `mask`, in increasing order.
pub open spec fn mask_squares(mask: u64) -> Seq<u8> {
    squares_below(mask, 64)
}

/// Number of set squares below `n`.
pub open spec fn count_below(mask: u64, n: nat) -> nat {
    squares_below(mask, n).len()
}

/// Number of set squares.
pub open spec fn bit_count(mask: u64) -> nat {
    count_below(mask, 64)
}

proof fn lemma_bit_or_raw(a: u64, b: u64, i: u64)
    by (bit_vector)
    requires
        i < 64,
    ensures
        ((a | b) >> i) & 1u64 == 1u64 <==> ((a >> i) & 1u64 == 1u64 || (b >> i) & 1u64 == 1u64),
{
}

proof fn lemma_bit_and_raw(a: u64, b: u64, i: u64)
    by (bit_vector)
    requires
        i < 64,
    ensures
        ((a & b) >> i) & 1u64 == 1u64 <==> ((a >> i) & 1u64 == 1u64 && (b >> i) & 1u64 == 1u64),
{
}

proof fn lemma_bit_not_raw(a: u64, i: u64)
    by (bit_vector)
    requires
        i < 64,
    ensures
        ((!a) >> i) & 1u64 == 1u64 <==> !((a >> i) & 1u64 == 1u64),
{
}

proof fn lemma_bit_single_raw(i: u64, j: u64)
    by (bit_vector)
    requires
        i < 64,
        j < 64,
    ensures
        ((1u64 << i) >> j) & 1u64 == 1u64 <==> i == j,
{
}

proof fn lemma_bit_zero_raw(j: u64)
    by (bit_vector)
    requires
        j < 64,
    ensures
        !((0u64 >> j) & 1u64 == 1u64),
{
}

proof fn lemma_bit_max_raw(j: u64)
    by (bit_vector)
    requires
        j < 64,
    ensures
        (0xffff_ffff_ffff_ffffu64 >> j) & 1u64 == 1u64,
{
}

proof fn lemma_bit_low_raw(n: u64, j: u64)
    by (bit_vector)
    requires
        n < 64,
        j < 64,
    ensures
        (((1u64 << n) - 1u64) as u64 >> j) & 1u64 == 1u64 <==> j < n,
{
}

proof fn lemma_shift_step_raw(a: u64, k: u64)
    by (bit_vector)
    requires
        k < 63,
    ensures
        a >> k == (((a >> ((k + 1) as u64)) << 1u64) | ((a >> k) & 1u64)),
{
}

proof fn lemma_shift_top_raw(a: u64)
    by (bit_vector)
    ensures
        a >> 63u64 == (a >> 63u64) & 1u64,
        a >> 0u64 == a,
{
}

/// Bit `i` of `a | b` is set exactly when it is set in `a` or in `b`.
pub proof fn lemma_has_bit_or(a: u64, b: u64, i: int)
    ensures
        has_bit(a | b, i) == (has_bit(a, i) || has_bit(b, i)),
{
    if 0 <= i < 64 {
        lemma_bit_or_raw(a, b, i as u64);
    }
}

/// Bit `i` of `a & b` is set exactly when it is set in both.
pub proof fn lemma_has_bit_and(a: u64, b: u64, i: int)
    ensures
        has_bit(a & b, i) == (has_bit(a, i) && has_bit(b, i)),
{
    if 0 <= i < 64 {
        lemma_bit_and_raw(a, b, i as u64);
    }
}

/// Complement flips every square of the board.
pub proof fn lemma_has_bit_not(a: u64, i: int)
    requires
        0 <= i < 64,
    ensures
        has_bit(!a, i) == !has_bit(a, i),
{
    lemma_bit_not_raw(a, i as u64);
}

/// `single(i)` holds square `i` and nothing else.
pub proof fn lemma_has_bit_single(i: int, j: int)
    requires
        0 <= i < 64,
    ensures
        has_bit(single(i), j) == (i == j),
{
    if 0 <= j < 64 {
        lemma_bit_single_raw(i as u64, j as u64);
    }
}

/// The empty mask holds no square.
pub proof fn lemma_has_bit_zero(j: int)
    ensures
        !has_bit(0u64, j),
{
    if 0 <= j < 64 {
        lemma_bit_zero_raw(j as u64);
    }
}

/// The full mask holds every square.
pub proof fn lemma_has_bit_max(j: int)
    ensures
        has_bit(u64::MAX, j) == (0 <= j < 64),
{
    if 0 <= j < 64 {
        lemma_bit_max_raw(j as u64);
    }
}

/// `(1 << n) - 1` holds exactly the squares below `n`.
pub proof fn lemma_has_bit_low(n: int, j: int)
    requires
        0 <= n < 64,
    ensures
        has_bit(((1u64 << (n as u64)) - 1u64) as u64, j) == (0 <= j < n),
{
    if 0 <= j < 64 {
        lemma_bit_low_raw(n as u64, j as u64);
    }
}

proof fn lemma_shift_equal_from(a: u64, b: u64, k: u64)
    requires
        k < 64,
        forall|i: int| k <= i < 64 ==> has_bit(a, i) == has_bit(b, i),
    ensures
        a >> k == b >> k,
    decreases 64 - k,
{
    if k == 63 {
        lemma_shift_top_raw(a);
        lemma_shift_top_raw(b);
        assert(has_bit(a, 63) == has_bit(b, 63));
        assert((a >> 63u64) & 1u64 == 1u64 || (a >> 63u64) & 1u64 == 0u64) by (bit_vector);
        assert((b >> 63u64) & 1u64 == 1u64 || (b >> 63u64) & 1u64 == 0u64) by (bit_vector);
    } else {
        lemma_shift_equal_from(a, b, (k + 1) as u64);
        lemma_shift_step_raw(a, k);
        lemma_shift_step_raw(b, k);
        assert(has_bit(a, k as int) == has_bit(b, k as int));
        assert((a >> k) & 1u64 == 1u64 || (a >> k) & 1u64 == 0u64) by (bit_vector);
        assert((b >> k) & 1u64 == 1u64 || (b >> k) & 1u64 == 0u64) by (bit_vector);
    }
}

/// Two masks with the same squares are equal.
pub proof fn lemma_same_bits_equal(a: u64, b: u64)
    requires
        same_bits(a, b),
    ensures
        a == b,
{
    lemma_shift_equal_from(a, b, 0);
    lemma_shift_top_raw(a);
    lemma_shift_top_raw(b);
}

/// A nonzero mask holds some square.
pub proof fn lemma_nonzero_has_bit(a: u64)
    ensures
        a != 0 <==> exists|i: int| 0 <= i < 64 && has_bit(a, i),
{
    if a != 0 {
        if forall|i: int| 0 <= i < 64 ==> !has_bit(a, i) {
            assert forall|i: int| 0 <= i < 64 implies has_bit(a, i) == has_bit(0u64, i) by {
                lemma_has_bit_zero(i);
            }
            lemma_same_bits_equal(a, 0u64);
        }
    } else {
        assert forall|i: int| 0 <= i < 64 implies !has_bit(a, i) by {
            lemma_has_bit_zero(i);
        }
    }
}

/// The listed squares are exactly the set squares below `n`, in increasing order.
pub proof fn lemma_squares_below(mask: u64, n: nat)
    requires
        n <= 64,
    ensures
        squares_below(mask, n).len() <= n,
        forall|k: int|
            0 <= k < squares_below(mask, n).len() ==> #[trigger] squares_below(mask, n)[k] < n
                && has_bit(mask, squares_below(mask, n)[k] as int),
        forall|a: int, b: int|
            0 <= a < b < squares_below(mask, n).len() ==> #[trigger] squares_below(mask, n)[a]
                < #[trigger] squares_below(mask, n)[b],
        forall|x: int|
            0 <= x < n && has_bit(mask, x) ==> #[trigger] squares_below(mask, n).contains(
                x as u8,
            ),
    decreases n,
{
    if n > 0 {
        lemma_squares_below(mask, (n - 1) as nat);
        let rest = squares_below(mask, (n - 1) as nat);
        let s = squares_below(mask, n);
        assert forall|x: int| 0 <= x < n && has_bit(mask, x) implies s.contains(x as u8) by {
            if x < n - 1 {
                assert(rest.contains(x as u8));
                let k = choose|k: int| 0 <= k < rest.len() && rest[k] == x as u8;
                assert(s[k] == x as u8);
            } else {
                assert(s[s.len() - 1] == x as u8);
            }
        }
    }
}

/// A square is listed exactly when it is set.
pub proof fn lemma_mask_squares_contains(mask: u64, x: int)
    requires
        0 <= x < 64,
    ensures
        mask_squares(mask).contains(x as u8) == has_bit(mask, x),
{
    lemma_squares_below(mask, 64);
    if mask_squares(mask).contains(x as u8) {
        let k = choose|k: int| 0 <= k < mask_squares(mask).len() && mask_squares(mask)[k] == x as u8;
        assert(mask_squares(mask)[k] < 64);
    }
}

/// Counting is monotone in the set of squares, and strict when a square is gained.
pub proof fn lemma_count_below_subset(a: u64, b: u64, n: nat)
    requires
        n <= 64,
        forall|i: int| 0 <= i < n && has_bit(a, i) ==> has_bit(b, i),
    ensures
        count_below(a, n) <= count_below(b, n),
        (exists|i: int| 0 <= i < n && has_bit(b, i) && !has_bit(a, i)) ==> count_below(a, n)
            < count_below(b, n),
    decreases n,
{
    if n > 0 {
        lemma_count_below_subset(a, b, (n - 1) as nat);
        if exists|i: int| 0 <= i < n && has_bit(b, i) && !has_bit(a, i) {
            let i = choose|i: int| 0 <= i < n && has_bit(b, i) && !has_bit(a, i);
            if i < n - 1 {
            } else {
            }
        }
    }
}

/// Counting agrees on masks that hold the same squares below `n`.
pub proof fn lemma_count_below_same(a: u64, b: u64, n: nat)
    requires
        n <= 64,
        forall|i: int| 0 <= i < n ==> has_bit(a, i) == has_bit(b, i),
    ensures
        squares_below(a, n) == squares_below(b, n),
    decreases n,
{
    if n > 0 {
        lemma_count_below_same(a, b, (n - 1) as nat);
    }
}

/// A union holds at most the squares of its parts.
pub proof fn lemma_count_below_or(a: u64, b: u64, n: nat)
    requires
        n <= 64,
    ensures
        count_below(a | b, n) <= count_below(a, n) + count_below(b, n),
    decreases n,
{
    if n > 0 {
        lemma_count_below_or(a, b, (n - 1) as nat);
        lemma_has_bit_or(a, b, n - 1);
    }
}

/// The empty mask and single squares have the expected counts.
pub proof fn lemma_count_below_single(i: int, n: nat)
    requires
        0 <= i < 64,
        n <= 64,
    ensures
        count_below(single(i), n) == (if i < n {
            1nat
        } else {
            0nat
        }),
        count_below(0u64, n) == 0,
    decreases n,
{
    if n > 0 {
        lemma_count_below_single(i, (n - 1) as nat);
        lemma_has_bit_single(i, n - 1);
        lemma_has_bit_zero(n - 1);
    }
}

/// Adding a square that is not yet set raises the count by one.
pub proof fn lemma_count_below_add(a: u64, i: int, n: nat)
    requires
        0 <= i < 64,
        n <= 64,
        !has_bit(a, i),
    ensures
        count_below(a | single(i), n) == count_below(a, n) + (if i < n {
            1nat
        } else {
            0nat
        }),
    decreases n,
{
    if n > 0 {
        lemma_count_below_add(a, i, (n - 1) as nat);
        lemma_has_bit_or(a, single(i), n - 1);
        lemma_has_bit_single(i, n - 1);
    }
}

/// Removing a subset takes exactly its squares off the count.
pub proof fn lemma_count_below_remove(a: u64, c: u64, n: nat)
    requires
        n <= 64,
        forall|i: int| 0 <= i < n && has_bit(c, i) ==> has_bit(a, i),
    ensures
        count_below(a & !c, n) + count_below(c, n) == count_below(a, n),
    decreases n,
{
    if n > 0 {
        lemma_count_below_remove(a, c, (n - 1) as nat);
        lemma_has_bit_and(a, !c, n - 1);
        lemma_has_bit_not(c, n - 1);
    }
}

/// Membership in a prefix grown by one element.
pub proof fn lemma_take_push_contains<T>(s: Seq<T>, n: int, x: T)
    requires
        0 <= n < s.len(),
    ensures
        s.take(n + 1).contains(x) == (s.take(n).contains(x) || s[n] == x),
{
    let longer = s.take(n + 1);
    if longer.contains(x) {
        let k = choose|k: int| 0 <= k < longer.len() && longer[k] == x;
        if k < n {
            assert(s.take(n)[k] == x);
        }
    }
    if s.take(n).contains(x) {
        let k = choose|k: int| 0 <= k < n && s.take(n)[k] == x;
        assert(longer[k] == x);
    }
    if s[n] == x {
        assert(longer[n] == x);
    }
}

/// Clearing a square takes exactly that square away.
pub proof fn lemma_clear_square(a: u64, i: int)
    requires
        0 <= i < 64,
    ensures
        has_bit(a, i) ==> bit_count(a & !single(i)) + 1 == bit_count(a),
        forall|j: int| #[trigger] has_bit(a & !single(i), j) == (has_bit(a, j) && j != i),
{
    assert forall|j: int| #[trigger] has_bit(a & !single(i), j) == (has_bit(a, j) && j != i) by {
        lemma_has_bit_and(a, !single(i), j);
        lemma_has_bit_single(i, j);
        if 0 <= j < 64 {
            lemma_has_bit_not(single(i), j);
        }
    }
    if has_bit(a, i) {
        assert forall|j: int| 0 <= j < 64 && has_bit(single(i), j) implies has_bit(a, j) by {
            lemma_has_bit_single(i, j);
        }
        lemma_count_below_remove(a, single(i), 64);
        lemma_count_below_single(i, 64);
    }
}

/// Setting a square adds it and leaves the others as they were.
pub proof fn lemma_set_square(a: u64, i: int)
    requires
        0 <= i < 64,
    ensures
        forall|j: int| #[trigger] has_bit(a | single(i), j) == (has_bit(a, j) || j == i),
        !has_bit(a, i) ==> bit_count(a | single(i)) == bit_count(a) + 1,
{
    assert forall|j: int| #[trigger] has_bit(a | single(i), j) == (has_bit(a, j) || j == i) by {
        lemma_has_bit_or(a, single(i), j);
        lemma_has_bit_single(i, j);
    }
    if !has_bit(a, i) {
        lemma_count_below_add(a, i, 64);
    }
}

/// The lowest set square of a nonzero mask.
pub fn lowest_square(mask: u64) -> (r: u8)
    requires
        mask != 0,
    ensures
        r < 64,
        has_bit(mask, r as int),
{
    proof {
        vstd::std_specs::bits::axiom_u64_trailing_zeros(mask);
    }
    let zeros = mask.trailing_zeros();
    zeros as u8
}

/// Lists the set squares of `mask` in increasing order.
pub fn bit_squares(mask: u64) -> (r: Vec<u8>)
    ensures
        r@ == mask_squares(mask),
{
    let mut squares: Vec<u8> = Vec::new();
    let mut square: u8 = 0;
    while square < 64
        invariant
            square <= 64,
            squares@ == squares_below(mask, square as nat),
        decreases 64 - square,
    {
        if (mask >> (square as u64)) & 1u64 == 1u64 {
            squares.push(square);
        }
        square = square + 1;
    }
    squares
}

/// Number of set squares.
pub fn popcount(mask: u64) -> (r: u32)
    ensures
        r as nat == bit_count(mask),
        r <= 64,
{
    let mut left = mask;
    let mut count: u32 = 0;
    proof {
        lemma_squares_below(mask, 64);
    }
    while left != 0
        invariant
            count as nat + bit_count(left) == bit_count(mask),
            bit_count(mask) <= 64,
        decreases bit_count(left),
    {
        let square = lowest_square(left);
        proof {
            lemma_clear_square(left, square as int);
        }
        left = left & !bit(square);
        count = count + 1;
    }
    proof {
        lemma_count_below_single(0, 64);
    }
    count
}

/// Whether square `square` is set; squares past the word are never set.
pub fn test_bit(mask: u64, square: u8) -> (r: bool)
    ensures
        r == has_bit(mask, square as int),
{
    square < 64 && (mask >> (square as u64)) & 1u64 == 1u64
}

/// The mask holding `square` alone.
pub fn bit(square: u8) -> (r: u64)
    requires
        square < 64,
    ensures
        r == single(square as int),
        forall|j: int| has_bit(r, j) == (j == square),
{
    proof {
        assert forall|j: int| has_bit(single(square as int), j) == (j == square) by {
            lemma_has_bit_single(square as int, j);
        }
    }
    1u64 << (square as u64)
}

} // verus!
