//! Square geometry: rows, columns, edges and orthogonal adjacency on a
//! `size` x `size` board whose squares are numbered row-major.

use vstd::prelude::*;

use crate::bitboard::{
    bit, bit_count, has_bit, lemma_count_below_subset, lemma_has_bit_and, lemma_has_bit_low,
    lemma_has_bit_max, lemma_has_bit_not, lemma_has_bit_or, lemma_has_bit_single,
    lemma_has_bit_zero, lemma_nonzero_has_bit, single, test_bit,
};
use crate::rules::Player;

verus! {

/// `a` and `b` are orthogonal neighbours on the board.
pub open spec fn adjacent(size: int, a: int, b: int) -> bool {
    &&& 0 <= a < size * size
    &&& 0 <= b < size * size
    &&& {
        ||| (a / size > 0 && b == a - size)
        ||| (a / size + 1 < size && b == a + size)
        ||| (a % size > 0 && b == a - 1)
        ||| (a % size + 1 < size && b == a + 1)
    }
}

/// The edge a player starts a chain from: the bottom row for light, the left
/// column for dark.
pub open spec fn on_near_edge(size: int, player: Player, square: int) -> bool {
    &&& 0 <= square < size * size
    &&& match player {
        Player::Light => square / size == size - 1,
        Player::Dark => square % size == 0,
    }
}

/// The edge a player must reach: the top row for light, the right column for
/// dark.
pub open spec fn on_far_edge(size: int, player: Player, square: int) -> bool {
    &&& 0 <= square < size * size
    &&& match player {
        Player::Light => square / size == 0,
        Player::Dark => square % size == size - 1,
    }
}

/// Row and column of a square on a supported board.
pub proof fn lemma_geometry(size: int, square: int)
    requires
        3 <= size <= 8,
        0 <= square < size * size,
    ensures
        square == (square / size) * size + square % size,
        0 <= square % size < size,
        0 <= square / size < size,
        size * size <= 64,
        square / size > 0 ==> square >= size,
        square / size + 1 < size ==> square + size < size * size,
        square % size > 0 ==> square >= 1,
        square % size + 1 < size ==> square + 1 < size * size,
        square / size >= 2 ==> square >= 2 * size,
        square / size + 2 < size ==> square + 2 * size < size * size,
        square % size >= 2 ==> square >= 2,
        square % size + 2 < size ==> square + 2 < size * size,
{
    if size == 3 {
    } else if size == 4 {
    } else if size == 5 {
    } else if size == 6 {
    } else if size == 7 {
    } else {
    }
}

/// Number of squares of a supported board.
pub proof fn lemma_cells(size: int)
    requires
        3 <= size <= 8,
    ensures
        9 <= size * size <= 64,
{
    if size == 3 {
    } else if size == 4 {
    } else if size == 5 {
    } else if size == 6 {
    } else if size == 7 {
    } else {
    }
}

/// The orthogonal neighbours of `square`.
pub fn neighbor_mask_for(board_size: u8, square: u8) -> (r: u64)
    requires
        3 <= board_size <= 8,
        square < board_size * board_size,
    ensures
        forall|j: int| has_bit(r, j) == adjacent(board_size as int, square as int, j),
{
    let ghost size = board_size as int;
    proof {
        lemma_geometry(size, square as int);
    }
    let row = square / board_size;
    let column = square % board_size;
    let up = if row > 0 {
        bit(square - board_size)
    } else {
        0
    };
    let down = if row + 1 < board_size {
        bit(square + board_size)
    } else {
        0
    };
    let left = if column > 0 {
        bit(square - 1)
    } else {
        0
    };
    let right = if column + 1 < board_size {
        bit(square + 1)
    } else {
        0
    };
    let mask = up | down | left | right;
    proof {
        assert forall|j: int| has_bit(mask, j) == adjacent(size, square as int, j) by {
            lemma_has_bit_or(up | down | left, right, j);
            lemma_has_bit_or(up | down, left, j);
            lemma_has_bit_or(up, down, j);
            lemma_has_bit_zero(j);
        }
    }
    mask
}

/// The near (`far == false`) or far edge of `player`.
pub fn edge_mask(board_size: u8, player: Player, far: bool) -> (r: u64)
    requires
        3 <= board_size <= 8,
    ensures
        forall|j: int|
            has_bit(r, j) == if far {
                on_far_edge(board_size as int, player, j)
            } else {
                on_near_edge(board_size as int, player, j)
            },
{
    let ghost size = board_size as int;
    proof {
        lemma_cells(size);
    }
    let cells = board_size * board_size;
    let mut mask: u64 = 0;
    let mut square: u8 = 0;
    proof {
        assert forall|j: int| !has_bit(mask, j) by {
            lemma_has_bit_zero(j);
        }
    }
    while square < cells
        invariant
            3 <= size <= 8,
            size == board_size,
            cells == size * size,
            cells <= 64,
            square <= cells,
            forall|j: int|
                has_bit(mask, j) == (j < square && if far {
                    on_far_edge(size, player, j)
                } else {
                    on_near_edge(size, player, j)
                }),
        decreases cells - square,
    {
        let row = square / board_size;
        let column = square % board_size;
        let on_edge = match player {
            Player::Light => if far {
                row == 0
            } else {
                row == board_size - 1
            },
            Player::Dark => if far {
                column == board_size - 1
            } else {
                column == 0
            },
        };
        let old_mask = mask;
        if on_edge {
            mask = mask | bit(square);
        }
        proof {
            assert forall|j: int|
                has_bit(mask, j) == (j < square + 1 && if far {
                    on_far_edge(size, player, j)
                } else {
                    on_near_edge(size, player, j)
                }) by {
                if on_edge {
                    lemma_has_bit_or(old_mask, single(square as int), j);
                    lemma_has_bit_single(square as int, j);
                }
            }
        }
        square = square + 1;
    }
    mask
}

} // verus!
