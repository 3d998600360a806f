//! Coefficient order tables.

use vstd::prelude::*;

verus! {

/// `ZIGZAG[k]` is the natural-order index of the `k`-th coefficient in
/// zig-zag order.
pub const ZIGZAG: [usize; 64] = [
    0, 1, 8, 16, 9, 2, 3, 10, 17, 24, 32, 25, 18, 11, 4, 5,
    12, 19, 26, 33, 40, 48, 41, 34, 27, 20, 13, 6, 7, 14, 21, 28,
    35, 42, 49, 56, 57, 50, 43, 36, 29, 22, 15, 23, 30, 37, 44, 51,
    58, 59, 52, 45, 38, 31, 39, 46, 53, 60, 61, 54, 47, 55, 62, 63,
];

/// `ZIGZAG_INVERSE[i]` is the zig-zag position of natural-order index `i`.
pub const ZIGZAG_INVERSE: [usize; 64] = [
    0, 1, 5, 6, 14, 15, 27, 28, 2, 4, 7, 13, 16, 26, 29, 42,
    3, 8, 12, 17, 25, 30, 41, 43, 9, 11, 18, 24, 31, 40, 44, 53,
    10, 19, 23, 32, 39, 45, 52, 54, 20, 22, 33, 38, 46, 51, 55, 60,
    21, 34, 37, 47, 50, 56, 59, 61, 35, 36, 48, 49, 57, 58, 62, 63,
];

/// Zig-zag order is a permutation of the 64 natural-order indices, and
/// [`ZIGZAG_INVERSE`] undoes it in both directions.
pub proof fn law_zigzag_is_permutation(k: int)
    requires
        0 <= k < 64,
    ensures
        0 <= ZIGZAG[k] < 64,
        0 <= ZIGZAG_INVERSE[k] < 64,
        ZIGZAG_INVERSE[ZIGZAG[k] as int] == k,
        ZIGZAG[ZIGZAG_INVERSE[k] as int] == k,
{
}

/// Zig-zag order starts at the top left corner, goes right first, and from
/// there on runs along the diagonals of the block, up one and down the next.
/// Where it would leave the block it goes one step along the edge.
pub proof fn law_zigzag_runs_along_the_diagonals(k: int)
    requires
        0 <= k < 63,
    ensures
        ZIGZAG[0] == 0,
        ({
            let (row, col) = (ZIGZAG[k] as int / 8, ZIGZAG[k] as int % 8);
            let (next_row, next_col) = if (row + col) % 2 == 0 {
                if col == 7 {
                    (row + 1, col)
                } else if row == 0 {
                    (row, col + 1)
                } else {
                    (row - 1, col + 1)
                }
            } else {
                if row == 7 {
                    (row, col + 1)
                } else if col == 0 {
                    (row + 1, col)
                } else {
                    (row + 1, col - 1)
                }
            };
            ZIGZAG[k + 1] == 8 * next_row + next_col
        }),
{
}

/// `natural` rearranged into zig-zag order.
pub open spec fn to_zigzag<T>(natural: Seq<T>) -> Seq<T> {
    Seq::new(64, |k: int| natural[ZIGZAG[k] as int])
}

/// `zz` put back into natural order.
pub open spec fn from_zigzag<T>(zz: Seq<T>) -> Seq<T> {
    Seq::new(64, |i: int| zz[ZIGZAG_INVERSE[i] as int])
}

/// Reordering into zig-zag order and back gives the block again, from
/// either side.
pub proof fn law_zigzag_round_trip<T>(b: Seq<T>)
    requires
        b.len() == 64,
    ensures
        from_zigzag(to_zigzag(b)) == b,
        to_zigzag(from_zigzag(b)) == b,
{
    assert forall|i: int| 0 <= i < 64 implies #[trigger] from_zigzag(to_zigzag(b))[i] == b[i] by {
        law_zigzag_is_permutation(i);
    }
    assert forall|i: int| 0 <= i < 64 implies #[trigger] to_zigzag(from_zigzag(b))[i] == b[i] by {
        law_zigzag_is_permutation(i);
    }
    assert(from_zigzag(to_zigzag(b)) =~= b);
    assert(to_zigzag(from_zigzag(b)) =~= b);
}

} // verus!
