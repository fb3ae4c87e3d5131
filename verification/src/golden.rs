//! Exact endgame data: the outcome codes, the D4-canonical position key that
//! golden tables and frontier files are keyed by, and its decoder.
//!
//! A key packs, from the least significant bit up: two bits per square
//! (0 empty, 1 light, 2 dark, 3 forbidden), one bit for the side to move, and
//! one relocation marker per player (the square, or the cell count for none),
//! each as wide as the cell count's bit length. The packed value is stored
//! little-endian in the fewest bytes that hold every used bit. The canonical
//! key of a position is the smallest key, byte-wise, over the eight board
//! symmetries; the symmetries that mirror across a diagonal axis also swap
//! the colours, so that each side keeps connecting its own pair of edges.

use vstd::arithmetic::div_mod::{lemma_div_denominator, lemma_fundamental_div_mod_converse};
use vstd::arithmetic::power2::{lemma_pow2_adds, lemma_pow2_pos, lemma_pow2_unfold, pow2};
use vstd::prelude::*;

use crate::bitboard::{
    bit, bit_count, has_bit, lemma_has_bit_or, lemma_has_bit_single, lemma_has_bit_zero, lemma_same_bits_equal, popcount,
    single, test_bit,
};
use crate::rules::{law_opponent_involution, Action, BoardConfig, GameState, Player, DEFAULT_MAX_PLIES};
use crate::text::{decimal_string_u64, decimal_text};

pub use crate::golden_book::{
    action_from_code, decode_action, decode_hex, decode_key_hex, hex_digit, GoldenActionBook, GoldenActionValue,
    GoldenRowValue, SidecarAction, SidecarRow,
};
pub use crate::golden_table::{
    GoldenLookupStats, MemoryGoldenLookup, MemoryGoldenLookupLayers, MemoryGoldenTable,
};

verus! {

pub const LOSS: u8 = 0;

pub const DRAW: u8 = 1;

pub const WIN: u8 = 2;

/// An exact game-theoretic value from the side to move's point of view.
#[derive(Clone, Copy, Debug, PartialEq, Eq, Structural)]
pub enum GoldenOutcome {
    Loss,
    Draw,
    Win,
}

impl GoldenOutcome {
    /// The byte that stores this outcome.
    pub open spec fn code(self) -> u8 {
        match self {
            GoldenOutcome::Loss => LOSS,
            GoldenOutcome::Draw => DRAW,
            GoldenOutcome::Win => WIN,
        }
    }

    /// The outcome stored as `value`, if any.
    pub open spec fn of_code(value: u8) -> Option<GoldenOutcome> {
        if value == LOSS {
            Some(GoldenOutcome::Loss)
        } else if value == DRAW {
            Some(GoldenOutcome::Draw)
        } else if value == WIN {
            Some(GoldenOutcome::Win)
        } else {
            None
        }
    }

    pub fn as_str(self) -> (r: &'static str)
        ensures
            r@ == (match self {
                GoldenOutcome::Loss => "loss"@,
                GoldenOutcome::Draw => "draw"@,
                GoldenOutcome::Win => "win"@,
            }),
    {
        match self {
            Self::Loss => "loss",
            Self::Draw => "draw",
            Self::Win => "win",
        }
    }

    pub fn as_byte(self) -> (r: u8)
        ensures
            r == self.code(),
    {
        match self {
            Self::Loss => LOSS,
            Self::Draw => DRAW,
            Self::Win => WIN,
        }
    }

    pub fn from_byte(value: u8) -> (r: Option<Self>)
        ensures
            r == Self::of_code(value),
    {
        if value == LOSS {
            Some(Self::Loss)
        } else if value == DRAW {
            Some(Self::Draw)
        } else if value == WIN {
            Some(Self::Win)
        } else {
            None
        }
    }
}

/// Storing an outcome as a byte and reading it back gives the outcome; the
/// bytes that decode are exactly the three codes.
pub proof fn law_outcome_byte_round_trip(outcome: GoldenOutcome, value: u8)
    ensures
        GoldenOutcome::of_code(outcome.code()) == Some(outcome),
        GoldenOutcome::of_code(value) is Some <==> value <= 2,
        GoldenOutcome::of_code(value) matches Some(o) ==> o.code() == value,
{
}

// ---------------------------------------------------------------------------
// Key widths
// ---------------------------------------------------------------------------

/// Number of binary digits of `n`.
pub open spec fn bit_length(n: nat) -> nat
    decreases n,
{
    if n == 0 {
        0
    } else {
        1 + bit_length(n / 2)
    }
}

/// Board sizes that the key codec supports.
pub open spec fn codec_size(board_size: int) -> bool {
    3 <= board_size <= 7
}

pub open spec fn cell_count(board_size: int) -> nat {
    (board_size * board_size) as nat
}

/// Width of one relocation marker.
pub open spec fn marker_width(board_size: int) -> nat {
    bit_length(cell_count(board_size))
}

/// Bits of a key that carry information.
pub open spec fn used_bits(board_size: int) -> nat {
    2 * cell_count(board_size) + 1 + 2 * marker_width(board_size)
}

/// Bytes of a key.
pub open spec fn key_len(board_size: int) -> nat {
    (used_bits(board_size) + 7) / 8
}

proof fn lemma_bit_length_below(n: nat, k: nat)
    requires
        n < pow2(k),
    ensures
        bit_length(n) <= k,
        n < pow2(bit_length(n)),
    decreases k,
{
    vstd::arithmetic::power2::lemma2_to64();
    if n > 0 {
        assert(k > 0);
        lemma_pow2_unfold(k);
        lemma_bit_length_below(n / 2, (k - 1) as nat);
        lemma_pow2_unfold(bit_length(n));
        assert(bit_length(n) == 1 + bit_length(n / 2));
    }
}

/// The widths for every supported board: 4, 6, 8, 11 and 14 bytes.
pub proof fn lemma_codec_widths(board_size: int)
    requires
        codec_size(board_size),
    ensures
        9 <= cell_count(board_size) <= 49,
        4 <= marker_width(board_size) <= 6,
        cell_count(board_size) < pow2(marker_width(board_size)),
        used_bits(board_size) <= 111,
        key_len(board_size) <= 14,
        used_bits(board_size) <= 8 * key_len(board_size),
        board_size == 3 ==> key_len(board_size) == 4,
        board_size == 4 ==> key_len(board_size) == 6,
        board_size == 5 ==> key_len(board_size) == 8,
        board_size == 6 ==> key_len(board_size) == 11,
        board_size == 7 ==> key_len(board_size) == 14,
{
    reveal_with_fuel(bit_length, 8);
    vstd::arithmetic::power2::lemma2_to64();
    if board_size == 3 {
        assert(cell_count(3) == 9);
        assert(bit_length(9) == 4);
    } else if board_size == 4 {
        assert(cell_count(4) == 16);
        assert(bit_length(16) == 5);
    } else if board_size == 5 {
        assert(cell_count(5) == 25);
        assert(bit_length(25) == 5);
    } else if board_size == 6 {
        assert(cell_count(6) == 36);
        assert(bit_length(36) == 6);
    } else {
        assert(cell_count(7) == 49);
        assert(bit_length(49) == 6);
    }
}

/// The bit length of a small count.
fn count_bits(n: u8) -> (r: u8)
    ensures
        r == bit_length(n as nat),
        r <= 8,
{
    let mut rest = n;
    let mut bits: u8 = 0;
    proof {
        vstd::arithmetic::power2::lemma2_to64();
        lemma_bit_length_below(n as nat, 8);
    }
    while rest > 0
        invariant
            bits + bit_length(rest as nat) == bit_length(n as nat),
            bit_length(n as nat) <= 8,
        decreases rest,
    {
        bits = bits + 1;
        rest = rest / 2;
    }
    bits
}

/// Bytes of a key on a supported board.
pub(crate) fn key_len_of(board_size: u8) -> (r: usize)
    requires
        codec_size(board_size as int),
    ensures
        r == key_len(board_size as int),
        r <= 14,
{
    proof {
        lemma_codec_widths(board_size as int);
    }
    let cells = board_size * board_size;
    let marker_bits = count_bits(cells);
    let used = 2 * (cells as usize) + 1 + 2 * (marker_bits as usize);
    (used + 7) / 8
}

/// Bytes of a canonical key on a `board_size` board.
pub fn key_bytes_for_board_size(board_size: u8) -> (r: Result<usize, String>)
    ensures
        r is Ok <==> codec_size(board_size as int),
        r matches Ok(n) ==> n == key_len(board_size as int),
        r matches Err(e) ==> e@ == "golden key codec supports board sizes 3 through 7"@,
{
    if board_size < 3 || board_size > 7 {
        return Err(String::from_str("golden key codec supports board sizes 3 through 7"));
    }
    Ok(key_len_of(board_size))
}

// ---------------------------------------------------------------------------
// Board symmetries
// ---------------------------------------------------------------------------

/// The square that `square` moves to under symmetry `symmetry` of the
/// dihedral group: 0 identity, 1 quarter turn, 2 half turn, 3 three-quarter
/// turn, 4 and 5 the mirrors across the two middle lines, 6 and 7 the mirrors
/// across the two diagonals.
pub open spec fn transformed_square(size: int, square: int, symmetry: int) -> int {
    let row = square / size;
    let column = square % size;
    let last = size - 1;
    let new_row = if symmetry == 0 || symmetry == 5 {
        row
    } else if symmetry == 1 || symmetry == 6 {
        column
    } else if symmetry == 2 || symmetry == 4 {
        last - row
    } else {
        last - column
    };
    let new_column = if symmetry == 0 || symmetry == 4 {
        column
    } else if symmetry == 1 || symmetry == 7 {
        last - row
    } else if symmetry == 2 || symmetry == 5 {
        last - column
    } else {
        row
    };
    new_row * size + new_column
}

/// The symmetry that undoes `symmetry`.
pub open spec fn inverse_of(symmetry: int) -> int {
    if symmetry == 1 {
        3
    } else if symmetry == 3 {
        1
    } else {
        symmetry
    }
}

/// The symmetries that mirror across a diagonal axis and so swap colours.
pub open spec fn swaps_colours(symmetry: int) -> bool {
    symmetry == 1 || symmetry == 3 || symmetry == 6 || symmetry == 7
}

/// Row and column of a square, and the square of a row and a column.
pub proof fn lemma_square_coordinates(size: int, row: int, column: int)
    requires
        1 <= size,
        0 <= row < size,
        0 <= column < size,
    ensures
        0 <= row * size + column < size * size,
        (row * size + column) / size == row,
        (row * size + column) % size == column,
{
    assert(0 <= row * size) by (nonlinear_arith)
        requires
            0 <= row,
            1 <= size,
    ;
    assert(row * size + column < size * size) by (nonlinear_arith)
        requires
            row < size,
            column < size,
            0 <= column,
            0 <= row,
    ;
    lemma_fundamental_div_mod_converse(row * size + column, size, row, column);
}

proof fn lemma_square_split(size: int, square: int)
    requires
        1 <= size,
        0 <= square < size * size,
    ensures
        0 <= square / size < size,
        0 <= square % size < size,
        square == (square / size) * size + square % size,
{
    vstd::arithmetic::div_mod::lemma_fundamental_div_mod(square, size);
    assert(square / size >= 0) by (nonlinear_arith)
        requires
            square >= 0,
            size >= 1,
    ;
    assert(square / size < size) by (nonlinear_arith)
        requires
            square < size * size,
            size >= 1,
            square >= 0,
            square == size * (square / size) + square % size,
            square % size >= 0,
    ;
    assert(size * (square / size) == (square / size) * size) by (nonlinear_arith);
}

/// A symmetry maps the board's squares onto the board.
pub proof fn lemma_transformed_square_on_board(size: int, square: int, symmetry: int)
    requires
        1 <= size,
        0 <= square < size * size,
    ensures
        0 <= transformed_square(size, square, symmetry) < size * size,
{
    lemma_square_split(size, square);
    let row = square / size;
    let column = square % size;
    let last = size - 1;
    let t = transformed_square(size, square, symmetry);
    if symmetry == 0 || symmetry == 5 {
        if symmetry == 0 {
            lemma_square_coordinates(size, row, column);
        } else {
            lemma_square_coordinates(size, row, last - column);
        }
    } else if symmetry == 1 || symmetry == 6 {
        if symmetry == 1 {
            lemma_square_coordinates(size, column, last - row);
        } else {
            lemma_square_coordinates(size, column, row);
        }
    } else if symmetry == 2 || symmetry == 4 {
        if symmetry == 2 {
            lemma_square_coordinates(size, last - row, last - column);
        } else {
            lemma_square_coordinates(size, last - row, column);
        }
    } else {
        if symmetry == 7 {
            lemma_square_coordinates(size, last - column, last - row);
        } else {
            lemma_square_coordinates(size, last - column, row);
        }
    }
}

/// Each symmetry is undone by its inverse: mapping a square and mapping the
/// result back gives the square again.
pub proof fn law_symmetry_round_trip(size: int, square: int, symmetry: int)
    requires
        1 <= size,
        0 <= square < size * size,
        0 <= symmetry < 8,
    ensures
        transformed_square(size, transformed_square(size, square, symmetry), inverse_of(symmetry))
            == square,
        0 <= inverse_of(symmetry) < 8,
{
    lemma_square_split(size, square);
    let row = square / size;
    let column = square % size;
    let last = size - 1;
    let t = transformed_square(size, square, symmetry);
    let (nr, nc) = if symmetry == 0 {
        (row, column)
    } else if symmetry == 1 {
        (column, last - row)
    } else if symmetry == 2 {
        (last - row, last - column)
    } else if symmetry == 3 {
        (last - column, row)
    } else if symmetry == 4 {
        (last - row, column)
    } else if symmetry == 5 {
        (row, last - column)
    } else if symmetry == 6 {
        (column, row)
    } else {
        (last - column, last - row)
    };
    lemma_square_coordinates(size, nr, nc);
    assert(t == nr * size + nc);
    lemma_square_coordinates(size, row, column);
}

/// The inverse of a symmetry.
pub fn inverse_symmetry(symmetry: u8) -> (r: u8)
    requires
        symmetry < 8,
    ensures
        r == inverse_of(symmetry as int),
        r < 8,
{
    if symmetry == 1 {
        3
    } else if symmetry == 3 {
        1
    } else {
        symmetry
    }
}

/// Where `square` moves under `symmetry` on a `size` board.
pub fn transform_square(size: u8, square: u8, symmetry: u8) -> (r: u8)
    requires
        1 <= size <= 8,
        square < size * size,
        symmetry < 8,
    ensures
        r == transformed_square(size as int, square as int, symmetry as int),
        r < size * size,
{
    proof {
        lemma_square_split(size as int, square as int);
        lemma_transformed_square_on_board(size as int, square as int, symmetry as int);
        assert(size * size <= 64) by (nonlinear_arith)
            requires
                size <= 8,
        ;
    }
    let row = square / size;
    let column = square % size;
    let last = size - 1;
    let new_row = if symmetry == 0 || symmetry == 5 {
        row
    } else if symmetry == 1 || symmetry == 6 {
        column
    } else if symmetry == 2 || symmetry == 4 {
        last - row
    } else {
        last - column
    };
    let new_column = if symmetry == 0 || symmetry == 4 {
        column
    } else if symmetry == 1 || symmetry == 7 {
        last - row
    } else if symmetry == 2 || symmetry == 5 {
        last - column
    } else {
        row
    };
    proof {
        lemma_square_coordinates(size as int, new_row as int, new_column as int);
    }
    new_row * size + new_column
}

/// The action's squares are on a `size` board.
pub open spec fn action_on_board(action: Action, size: int) -> bool {
    match action {
        Action::Place { to } => to < size * size,
        Action::Relocate { from, to } => from < size * size && to < size * size,
    }
}

pub open spec fn transformed_action(action: Action, size: int, symmetry: int) -> Action {
    match action {
        Action::Place { to } => Action::Place {
            to: transformed_square(size, to as int, symmetry) as u8,
        },
        Action::Relocate { from, to } => Action::Relocate {
            from: transformed_square(size, from as int, symmetry) as u8,
            to: transformed_square(size, to as int, symmetry) as u8,
        },
    }
}

/// The action seen through a board symmetry.
pub fn transform_action(action: Action, size: u8, symmetry: u8) -> (r: Action)
    requires
        1 <= size <= 8,
        action_on_board(action, size as int),
        symmetry < 8,
    ensures
        r == transformed_action(action, size as int, symmetry as int),
        action_on_board(r, size as int),
{
    match action {
        Action::Place { to } => Action::Place { to: transform_square(size, to, symmetry) },
        Action::Relocate { from, to } => Action::Relocate {
            from: transform_square(size, from, symmetry),
            to: transform_square(size, to, symmetry),
        },
    }
}

/// An action seen through a symmetry and then through its inverse is the
/// action again.
pub proof fn law_action_symmetry_round_trip(action: Action, size: int, symmetry: int)
    requires
        1 <= size <= 8,
        action_on_board(action, size),
        0 <= symmetry < 8,
    ensures
        transformed_action(transformed_action(action, size, symmetry), size, inverse_of(symmetry))
            == action,
{
    assert(size * size <= 64) by (nonlinear_arith)
        requires
            size <= 8,
            1 <= size,
    ;
    match action {
        Action::Place { to } => {
            lemma_transformed_square_on_board(size, to as int, symmetry);
            law_symmetry_round_trip(size, to as int, symmetry);
        },
        Action::Relocate { from, to } => {
            lemma_transformed_square_on_board(size, to as int, symmetry);
            lemma_transformed_square_on_board(size, from as int, symmetry);
            law_symmetry_round_trip(size, to as int, symmetry);
            law_symmetry_round_trip(size, from as int, symmetry);
        },
    }
}

// ---------------------------------------------------------------------------
// Positions under a symmetry
// ---------------------------------------------------------------------------

/// The image under `symmetry` of the squares of `mask` below `n`.
pub open spec fn image_below(mask: u64, size: int, symmetry: int, n: nat) -> u64
    decreases n,
{
    if n == 0 {
        0
    } else {
        let rest = image_below(mask, size, symmetry, (n - 1) as nat);
        if has_bit(mask, n - 1) {
            rest | single(transformed_square(size, n - 1, symmetry))
        } else {
            rest
        }
    }
}

/// The image under `symmetry` of the on-board squares of `mask`.
pub open spec fn transformed_mask(mask: u64, size: int, symmetry: int) -> u64 {
    image_below(mask, size, symmetry, cell_count(size))
}

pub open spec fn transformed_marker(marker: Option<u8>, size: int, symmetry: int) -> Option<u8> {
    match marker {
        Some(square) => Some(transformed_square(size, square as int, symmetry) as u8),
        None => None,
    }
}

pub open spec fn mirrored_player(player: Option<Player>, swaps: bool) -> Option<Player> {
    match player {
        Some(p) => Some(
            if swaps {
                p.opponent()
            } else {
                p
            },
        ),
        None => None,
    }
}

/// Both relocation markers name squares of the board.
pub open spec fn markers_on_board(state: GameState) -> bool {
    let cells = cell_count(state.config.board_size as int);
    &&& (state.last_relocated_to[0] matches Some(square) ==> square < cells)
    &&& (state.last_relocated_to[1] matches Some(square) ==> square < cells)
}

/// The position seen through `symmetry`. A diagonal mirror also swaps the
/// colours so that each side keeps its own pair of edges.
pub open spec fn transformed_state(state: GameState, symmetry: int) -> GameState {
    let size = state.config.board_size as int;
    let light = transformed_mask(state.light, size, symmetry);
    let dark = transformed_mask(state.dark, size, symmetry);
    let first = transformed_marker(state.last_relocated_to[0], size, symmetry);
    let second = transformed_marker(state.last_relocated_to[1], size, symmetry);
    let swaps = swaps_colours(symmetry);
    GameState {
        config: state.config,
        light: if swaps {
            dark
        } else {
            light
        },
        dark: if swaps {
            light
        } else {
            dark
        },
        reserve: if swaps {
            [state.reserve[1], state.reserve[0]]
        } else {
            state.reserve
        },
        turn: if swaps {
            state.turn.opponent()
        } else {
            state.turn
        },
        forbidden: transformed_mask(state.forbidden, size, symmetry),
        last_relocated_to: if swaps {
            [second, first]
        } else {
            [first, second]
        },
        last_capture: state.last_capture,
        last_player: mirrored_player(state.last_player, swaps),
        winner: mirrored_player(state.winner, swaps),
        ply: state.ply,
    }
}

fn transform_mask(mask: u64, size: u8, symmetry: u8) -> (r: u64)
    requires
        1 <= size <= 8,
        symmetry < 8,
    ensures
        r == transformed_mask(mask, size as int, symmetry as int),
{
    proof {
        assert(size * size <= 64) by (nonlinear_arith)
            requires
                size <= 8,
        ;
    }
    let cells = size * size;
    let mut transformed: u64 = 0;
    let mut square: u8 = 0;
    while square < cells
        invariant
            1 <= size <= 8,
            symmetry < 8,
            cells == size * size,
            cells <= 64,
            square <= cells,
            transformed == image_below(mask, size as int, symmetry as int, square as nat),
        decreases cells - square,
    {
        if test_bit(mask, square) {
            transformed = transformed | bit(transform_square(size, square, symmetry));
        }
        square = square + 1;
    }
    transformed
}

fn transform_marker(marker: Option<u8>, size: u8, symmetry: u8) -> (r: Option<u8>)
    requires
        1 <= size <= 8,
        symmetry < 8,
        marker matches Some(square) ==> square < size * size,
    ensures
        r == transformed_marker(marker, size as int, symmetry as int),
        r matches Some(square) ==> square < size * size,
{
    match marker {
        Some(square) => Some(transform_square(size, square, symmetry)),
        None => None,
    }
}

fn mirror_player(player: Option<Player>, swaps: bool) -> (r: Option<Player>)
    ensures
        r == mirrored_player(player, swaps),
{
    match player {
        Some(p) => Some(
            if swaps {
                p.other()
            } else {
                p
            },
        ),
        None => None,
    }
}

fn transform_state(state: GameState, symmetry: u8) -> (r: GameState)
    requires
        3 <= state.config.board_size <= 8,
        markers_on_board(state),
        symmetry < 8,
    ensures
        r == transformed_state(state, symmetry as int),
        markers_on_board(r),
{
    let size = state.config.board_size;
    let swaps = symmetry == 1 || symmetry == 3 || symmetry == 6 || symmetry == 7;
    let light = transform_mask(state.light, size, symmetry);
    let dark = transform_mask(state.dark, size, symmetry);
    let forbidden = transform_mask(state.forbidden, size, symmetry);
    let first = transform_marker(state.last_relocated_to[0], size, symmetry);
    let second = transform_marker(state.last_relocated_to[1], size, symmetry);
    let last_player = mirror_player(state.last_player, swaps);
    let winner = mirror_player(state.winner, swaps);
    if swaps {
        GameState {
            config: state.config,
            light: dark,
            dark: light,
            reserve: [state.reserve[1], state.reserve[0]],
            turn: state.turn.other(),
            forbidden,
            last_relocated_to: [second, first],
            last_capture: state.last_capture,
            last_player,
            winner,
            ply: state.ply,
        }
    } else {
        GameState {
            config: state.config,
            light,
            dark,
            reserve: state.reserve,
            turn: state.turn,
            forbidden,
            last_relocated_to: [first, second],
            last_capture: state.last_capture,
            last_player,
            winner,
            ply: state.ply,
        }
    }
}

/// Apply one of the eight rules-preserving board symmetries to a position.
pub fn transform_position(state: GameState, symmetry: u8) -> (r: GameState)
    requires
        3 <= state.config.board_size <= 8,
        markers_on_board(state),
        symmetry < 8,
    ensures
        r == transformed_state(state, symmetry as int),
{
    transform_state(state, symmetry)
}

/// A mask that holds no square off a board `size` squares a side.
pub open spec fn mask_on_board(mask: u64, size: int) -> bool {
    forall|i: int| cell_count(size) <= i < 64 ==> !has_bit(mask, i)
}

/// The squares of the image of `mask`'s squares below `n` are the images of
/// those squares.
proof fn lemma_image_bits(mask: u64, size: int, symmetry: int, n: nat, j: int)
    requires
        1 <= size <= 8,
        n <= size * size,
    ensures
        has_bit(image_below(mask, size, symmetry, n), j) <==> exists|i: int|
            0 <= i < n && has_bit(mask, i) && transformed_square(size, i, symmetry) == j,
    decreases n,
{
    if n == 0 {
        lemma_has_bit_zero(j);
    } else {
        let m = n - 1;
        lemma_image_bits(mask, size, symmetry, m as nat, j);
        let rest = image_below(mask, size, symmetry, m as nat);
        let t = transformed_square(size, m, symmetry);
        if has_bit(mask, m) {
            assert(size * size <= 64) by (nonlinear_arith)
                requires
                    1 <= size <= 8,
            ;
            lemma_transformed_square_on_board(size, m, symmetry);
            lemma_has_bit_or(rest, single(t), j);
            lemma_has_bit_single(t, j);
        }
        if exists|i: int| 0 <= i < n && has_bit(mask, i) && transformed_square(size, i, symmetry) == j {
            let i = choose|i: int| 0 <= i < n && has_bit(mask, i) && transformed_square(size, i, symmetry) == j;
            if i < m {
                assert(0 <= i < m && has_bit(mask, i) && transformed_square(size, i, symmetry) == j);
            }
        }
    }
}

/// Transforming an on-board mask and then transforming the result by the
/// inverse symmetry gives the mask back.
proof fn lemma_mask_round_trip(mask: u64, size: int, symmetry: int)
    requires
        1 <= size <= 8,
        0 <= symmetry < 8,
        mask_on_board(mask, size),
    ensures
        transformed_mask(transformed_mask(mask, size, symmetry), size, inverse_of(symmetry)) == mask,
{
    let cells = cell_count(size);
    assert(size * size <= 64) by (nonlinear_arith)
        requires
            1 <= size <= 8,
    ;
    let once = transformed_mask(mask, size, symmetry);
    let twice = transformed_mask(once, size, inverse_of(symmetry));
    assert forall|j: int| 0 <= j < 64 implies has_bit(twice, j) == has_bit(mask, j) by {
        lemma_image_bits(once, size, inverse_of(symmetry), cells, j);
        if has_bit(mask, j) {
            let i = transformed_square(size, j, symmetry);
            lemma_transformed_square_on_board(size, j, symmetry);
            law_symmetry_round_trip(size, j, symmetry);
            lemma_image_bits(mask, size, symmetry, cells, i);
            assert(0 <= j < cells && has_bit(mask, j) && transformed_square(size, j, symmetry) == i);
            assert(0 <= i < cells && has_bit(once, i) && transformed_square(size, i, inverse_of(symmetry)) == j);
        }
        if has_bit(twice, j) {
            let i = choose|i: int|
                0 <= i < cells && has_bit(once, i) && transformed_square(size, i, inverse_of(symmetry)) == j;
            lemma_image_bits(mask, size, symmetry, cells, i);
            let k = choose|k: int| 0 <= k < cells && has_bit(mask, k) && transformed_square(size, k, symmetry) == i;
            law_symmetry_round_trip(size, k, symmetry);
        }
    }
    lemma_same_bits_equal(twice, mask);
}

/// Undoing a symmetry: transforming a position whose pieces and forbidden
/// squares lie on its board, and then transforming the result by the inverse
/// symmetry, gives the position back.
pub proof fn law_transform_round_trip(state: GameState, symmetry: int)
    requires
        3 <= state.config.board_size <= 8,
        markers_on_board(state),
        0 <= symmetry < 8,
        mask_on_board(state.light, state.config.board_size as int),
        mask_on_board(state.dark, state.config.board_size as int),
        mask_on_board(state.forbidden, state.config.board_size as int),
    ensures
        transformed_state(transformed_state(state, symmetry), inverse_of(symmetry)) == state,
{
    broadcast use vstd::array::group_array_axioms;

    let size = state.config.board_size as int;
    let once = transformed_state(state, symmetry);
    let back = transformed_state(once, inverse_of(symmetry));
    lemma_mask_round_trip(state.light, size, symmetry);
    lemma_mask_round_trip(state.dark, size, symmetry);
    lemma_mask_round_trip(state.forbidden, size, symmetry);
    assert(size * size <= 64) by (nonlinear_arith)
        requires
            1 <= size <= 8,
    ;
    if let Some(square) = state.last_relocated_to[0] {
        lemma_transformed_square_on_board(size, square as int, symmetry);
        law_symmetry_round_trip(size, square as int, symmetry);
    }
    if let Some(square) = state.last_relocated_to[1] {
        lemma_transformed_square_on_board(size, square as int, symmetry);
        law_symmetry_round_trip(size, square as int, symmetry);
    }
    law_opponent_involution(state.turn);
    if let Some(p) = state.last_player {
        law_opponent_involution(p);
    }
    if let Some(p) = state.winner {
        law_opponent_involution(p);
    }
    assert(back.reserve =~= state.reserve);
    assert(back.last_relocated_to =~= state.last_relocated_to);
}

// ---------------------------------------------------------------------------
// Packing
// ---------------------------------------------------------------------------

/// The two-bit code of a square: 1 light, 2 dark, 3 forbidden, 0 empty.
pub open spec fn square_code(state: GameState, square: int) -> nat {
    if has_bit(state.light, square) {
        1
    } else if has_bit(state.dark, square) {
        2
    } else if has_bit(state.forbidden, square) {
        3
    } else {
        0
    }
}

/// The codes of the squares below `n`, two bits each.
pub open spec fn board_code(state: GameState, n: nat) -> nat
    decreases n,
{
    if n == 0 {
        0
    } else {
        board_code(state, (n - 1) as nat) + square_code(state, n - 1) * pow2(2 * (n - 1) as nat)
    }
}

/// A relocation marker: its square, or the cell count for none.
pub open spec fn marker_code(marker: Option<u8>, cells: nat) -> nat {
    match marker {
        Some(square) => square as nat,
        None => cells,
    }
}

/// The packed key value of a position, as laid out in the module notes.
pub open spec fn packed_value(state: GameState) -> nat {
    let size = state.config.board_size as int;
    let cells = cell_count(size);
    let width = marker_width(size);
    board_code(state, cells) + state.turn.slot() as nat * pow2(2 * cells) + marker_code(
        state.last_relocated_to[0],
        cells,
    ) * pow2(2 * cells + 1) + marker_code(state.last_relocated_to[1], cells) * pow2(
        2 * cells + 1 + width,
    )
}

/// The `n` low bytes of `value`, least significant first.
pub open spec fn le_bytes(value: nat, n: nat) -> Seq<u8>
    decreases n,
{
    if n == 0 {
        Seq::empty()
    } else {
        seq![(value % 256) as u8] + le_bytes(value / 256, (n - 1) as nat)
    }
}

/// The key of the position seen through `symmetry`.
pub open spec fn orientation_key(state: GameState, symmetry: int) -> Seq<u8> {
    le_bytes(
        packed_value(transformed_state(state, symmetry)),
        key_len(state.config.board_size as int),
    )
}

/// 2^112, the first power of two past every packed key.
pub open spec fn key_ceiling() -> nat {
    0x1_0000_0000_0000_0000_0000_0000_0000
}

proof fn lemma_pow2_below_ceiling(k: nat)
    requires
        k <= 112,
    ensures
        pow2(k) <= key_ceiling(),
        pow2(k) > 0,
{
    vstd::arithmetic::power2::lemma2_to64();
    lemma_pow2_adds(64, 32);
    lemma_pow2_adds(96, 16);
    assert(pow2(112) == key_ceiling());
    if k < 112 {
        vstd::arithmetic::power2::lemma_pow2_strictly_increases(k, 112);
    }
    lemma_pow2_pos(k);
}

/// Stacking a field of `width` bits above `low` bits keeps the value below
/// the combined width.
proof fn lemma_stack_field(low: nat, field: nat, bits: nat, width: nat)
    requires
        low < pow2(bits),
        field < pow2(width),
    ensures
        low + field * pow2(bits) < pow2(bits + width),
{
    lemma_pow2_adds(bits, width);
    lemma_pow2_pos(bits);
    let p = pow2(bits);
    let q = pow2(width);
    assert(low + field * p < q * p) by (nonlinear_arith)
        requires
            low < p,
            field < q,
            p > 0,
    ;
    assert(q * p == p * q) by (nonlinear_arith);
}

proof fn lemma_board_code_bound(state: GameState, n: nat)
    ensures
        board_code(state, n) < pow2(2 * n),
    decreases n,
{
    vstd::arithmetic::power2::lemma2_to64();
    if n > 0 {
        lemma_board_code_bound(state, (n - 1) as nat);
        lemma_stack_field(board_code(state, (n - 1) as nat), square_code(state, n - 1), 2 * (n - 1) as nat, 2);
        assert(2 * (n - 1) as nat + 2 == 2 * n);
    }
}

/// The packed value of a position whose markers are on the board fits the
/// key's used bits.
proof fn lemma_packed_value_bound(state: GameState)
    requires
        codec_size(state.config.board_size as int),
        markers_on_board(state),
    ensures
        packed_value(state) < pow2(used_bits(state.config.board_size as int)),
{
    let size = state.config.board_size as int;
    let cells = cell_count(size);
    let width = marker_width(size);
    lemma_codec_widths(size);
    vstd::arithmetic::power2::lemma2_to64();
    lemma_board_code_bound(state, cells);
    let a = board_code(state, cells);
    lemma_stack_field(a, state.turn.slot() as nat, 2 * cells, 1);
    let b = a + state.turn.slot() as nat * pow2(2 * cells);
    let m0 = marker_code(state.last_relocated_to[0], cells);
    let m1 = marker_code(state.last_relocated_to[1], cells);
    lemma_stack_field(b, m0, 2 * cells + 1, width);
    let c = b + m0 * pow2(2 * cells + 1);
    lemma_stack_field(c, m1, 2 * cells + 1 + width, width);
}

fn code_of_square(state: GameState, square: u8) -> (r: u128)
    ensures
        r == square_code(state, square as int),
{
    if test_bit(state.light, square) {
        1
    } else if test_bit(state.dark, square) {
        2
    } else if test_bit(state.forbidden, square) {
        3
    } else {
        0
    }
}

fn code_of_marker(marker: Option<u8>, cells: u8) -> (r: u128)
    ensures
        r == marker_code(marker, cells as nat),
{
    match marker {
        Some(square) => square as u128,
        None => cells as u128,
    }
}

/// The packed key value of a position.
fn pack_value(state: GameState) -> (r: u128)
    requires
        codec_size(state.config.board_size as int),
        markers_on_board(state),
    ensures
        r == packed_value(state),
        r < pow2(used_bits(state.config.board_size as int)),
{
    let size = state.config.board_size;
    proof {
        lemma_codec_widths(size as int);
        lemma_packed_value_bound(state);
        vstd::arithmetic::power2::lemma2_to64();
        lemma_pow2_below_ceiling(used_bits(size as int));
    }
    let cells = size * size;
    let width = count_bits(cells);
    let mut packed: u128 = 0;
    let mut weight: u128 = 1;
    let mut square: u8 = 0;
    while square < cells
        invariant
            codec_size(size as int),
            size == state.config.board_size,
            cells == cell_count(size as int),
            9 <= cells <= 49,
            square <= cells,
            weight == pow2(2 * square as nat),
            packed == board_code(state, square as nat),
            packed < weight,
        decreases cells - square,
    {
        let code = code_of_square(state, square);
        proof {
            vstd::arithmetic::power2::lemma2_to64();
            lemma_pow2_adds(2 * square as nat, 2);
            assert(2 * square as nat + 2 == 2 * (square + 1) as nat);
            lemma_pow2_below_ceiling(2 * (square + 1) as nat);
            lemma_stack_field(packed as nat, code as nat, 2 * square as nat, 2);
        }
        packed = packed + code * weight;
        weight = weight * 4;
        square = square + 1;
    }
    let turn = state.turn.index() as u128;
    proof {
        lemma_stack_field(packed as nat, turn as nat, 2 * cells as nat, 1);
        lemma_pow2_adds(2 * cells as nat, 1);
        lemma_pow2_below_ceiling(2 * cells as nat + 1);
    }
    packed = packed + turn * weight;
    let mut shift = weight * 2;
    let first = code_of_marker(state.last_relocated_to[0], cells);
    proof {
        lemma_stack_field(packed as nat, first as nat, 2 * cells as nat + 1, width as nat);
        lemma_pow2_below_ceiling(2 * cells as nat + 1 + width as nat);
    }
    packed = packed + first * shift;
    let mut step: u8 = 0;
    while step < width
        invariant
            width <= 6,
            step <= width,
            cells <= 49,
            shift == pow2(2 * cells as nat + 1 + step as nat),
        decreases width - step,
    {
        proof {
            vstd::arithmetic::power2::lemma2_to64();
            lemma_pow2_adds(2 * cells as nat + 1 + step as nat, 1);
            lemma_pow2_below_ceiling(2 * cells as nat + 1 + step as nat + 1);
        }
        shift = shift * 2;
        step = step + 1;
    }
    let second = code_of_marker(state.last_relocated_to[1], cells);
    proof {
        lemma_stack_field(
            packed as nat,
            second as nat,
            2 * cells as nat + 1 + width as nat,
            width as nat,
        );
    }
    packed = packed + second * shift;
    packed
}

/// The `len` low bytes of `value`, least significant first.
fn little_endian(value: u128, len: usize) -> (r: Vec<u8>)
    ensures
        r@ == le_bytes(value as nat, len as nat),
{
    let mut bytes: Vec<u8> = Vec::new();
    let mut rest = value;
    let mut i: usize = 0;
    while i < len
        invariant
            i <= len,
            bytes@ + le_bytes(rest as nat, (len - i) as nat) == le_bytes(value as nat, len as nat),
        decreases len - i,
    {
        let byte = (rest % 256) as u8;
        proof {
            let tail = le_bytes((rest / 256) as nat, (len - i - 1) as nat);
            assert(le_bytes(rest as nat, (len - i) as nat) == seq![byte] + tail);
            assert(bytes@.push(byte) + tail =~= bytes@ + (seq![byte] + tail));
        }
        bytes.push(byte);
        rest = rest / 256;
        i = i + 1;
    }
    proof {
        assert(bytes@ + Seq::<u8>::empty() =~= bytes@);
    }
    bytes
}

/// The key of the position seen through `symmetry`.
pub(crate) fn pack_transformed(state: GameState, symmetry: u8) -> (r: Vec<u8>)
    requires
        codec_size(state.config.board_size as int),
        markers_on_board(state),
        symmetry < 8,
    ensures
        r@ == orientation_key(state, symmetry as int),
{
    let transformed = transform_state(state, symmetry);
    let value = pack_value(transformed);
    little_endian(value, key_len_of(state.config.board_size))
}

// ---------------------------------------------------------------------------
// Canonical keys
// ---------------------------------------------------------------------------

/// Byte-wise lexicographic order, a proper prefix first.
pub open spec fn lex_less(a: Seq<u8>, b: Seq<u8>) -> bool
    decreases a.len(),
{
    if a.len() == 0 {
        b.len() > 0
    } else if b.len() == 0 {
        false
    } else if a[0] != b[0] {
        a[0] < b[0]
    } else {
        lex_less(a.drop_first(), b.drop_first())
    }
}

/// The least key over the symmetries below `n`, with the first symmetry
/// that gives it.
pub open spec fn least_key_upto(state: GameState, n: nat) -> (Seq<u8>, int)
    decreases n,
{
    if n <= 1 {
        (orientation_key(state, 0), 0)
    } else {
        let (best, symmetry) = least_key_upto(state, (n - 1) as nat);
        let candidate = orientation_key(state, n - 1);
        if lex_less(candidate, best) {
            (candidate, n - 1)
        } else {
            (best, symmetry)
        }
    }
}

/// The D4-canonical key of a position.
pub open spec fn canonical_key_of(state: GameState) -> Seq<u8> {
    least_key_upto(state, 8).0
}

pub proof fn lemma_lex_less_irreflexive(a: Seq<u8>)
    ensures
        !lex_less(a, a),
    decreases a.len(),
{
    if a.len() > 0 {
        lemma_lex_less_irreflexive(a.drop_first());
    }
}

pub proof fn lemma_lex_less_transitive(a: Seq<u8>, b: Seq<u8>, c: Seq<u8>)
    requires
        lex_less(a, b),
        lex_less(b, c),
    ensures
        lex_less(a, c),
    decreases a.len(),
{
    if a.len() > 0 && b.len() > 0 && c.len() > 0 && a[0] == b[0] && b[0] == c[0] {
        lemma_lex_less_transitive(a.drop_first(), b.drop_first(), c.drop_first());
    }
}

pub(crate) proof fn lemma_least_key_upto(state: GameState, n: nat)
    requires
        1 <= n,
    ensures
        0 <= least_key_upto(state, n).1 < n,
        least_key_upto(state, n).0 == orientation_key(state, least_key_upto(state, n).1),
        forall|s: int| 0 <= s < n ==> !lex_less(orientation_key(state, s), least_key_upto(state, n).0),
    decreases n,
{
    if n == 1 {
        lemma_lex_less_irreflexive(orientation_key(state, 0));
        assert forall|s: int| 0 <= s < n implies !lex_less(orientation_key(state, s), least_key_upto(state, n).0) by {
            assert(s == 0);
        }
    } else {
        lemma_least_key_upto(state, (n - 1) as nat);
        let (best, symmetry) = least_key_upto(state, (n - 1) as nat);
        let candidate = orientation_key(state, n - 1);
        lemma_lex_less_irreflexive(candidate);
        assert forall|s: int| 0 <= s < n implies !lex_less(orientation_key(state, s), least_key_upto(state, n).0) by {
            if lex_less(candidate, best) && s < n - 1 {
                if lex_less(orientation_key(state, s), candidate) {
                    lemma_lex_less_transitive(orientation_key(state, s), candidate, best);
                }
            }
        }
    }
}

/// The canonical key is the key of one of the eight orientations of the
/// position, and no orientation has a smaller key.
pub proof fn law_canonical_key_is_least(state: GameState)
    ensures
        exists|s: int| 0 <= s < 8 && canonical_key_of(state) == orientation_key(state, s),
        forall|s: int| 0 <= s < 8 ==> !lex_less(orientation_key(state, s), canonical_key_of(state)),
{
    lemma_least_key_upto(state, 8);
    let s = least_key_upto(state, 8).1;
    assert(canonical_key_of(state) == orientation_key(state, s));
}

/// Whether `a` sorts before `b` byte-wise.
pub(crate) fn key_less(a: &Vec<u8>, b: &Vec<u8>) -> (r: bool)
    ensures
        r == lex_less(a@, b@),
{
    let mut i: usize = 0;
    proof {
        assert(a@.skip(0) =~= a@);
        assert(b@.skip(0) =~= b@);
    }
    while i < a.len() && i < b.len()
        invariant
            i <= a.len(),
            i <= b.len(),
            lex_less(a@, b@) == lex_less(a@.skip(i as int), b@.skip(i as int)),
        decreases a.len() - i,
    {
        proof {
            assert(a@.skip(i as int).drop_first() =~= a@.skip(i as int + 1));
            assert(b@.skip(i as int).drop_first() =~= b@.skip(i as int + 1));
        }
        if a[i] != b[i] {
            return a[i] < b[i];
        }
        i = i + 1;
    }
    i < b.len()
}

/// The canonical key of a position and the first symmetry that gives it.
pub fn canonical_key(state: GameState) -> (r: (Vec<u8>, u8))
    requires
        codec_size(state.config.board_size as int),
        markers_on_board(state),
    ensures
        r.0@ == least_key_upto(state, 8).0,
        r.1 == least_key_upto(state, 8).1,
{
    let mut best = pack_transformed(state, 0);
    let mut best_symmetry: u8 = 0;
    let mut symmetry: u8 = 1;
    while symmetry < 8
        invariant
            codec_size(state.config.board_size as int),
            markers_on_board(state),
            1 <= symmetry <= 8,
            best@ == least_key_upto(state, symmetry as nat).0,
            best_symmetry == least_key_upto(state, symmetry as nat).1,
        decreases 8 - symmetry,
    {
        let candidate = pack_transformed(state, symmetry);
        if key_less(&candidate, &best) {
            best = candidate;
            best_symmetry = symmetry;
        }
        symmetry = symmetry + 1;
    }
    (best, best_symmetry)
}

/// The stable little-endian D4-canonical key used by golden tables and
/// retrograde frontier interchange files.
pub fn canonical_position_key(state: GameState) -> (r: Vec<u8>)
    requires
        codec_size(state.config.board_size as int),
        markers_on_board(state),
    ensures
        r@ == canonical_key_of(state),
        r@.len() == key_len(state.config.board_size as int),
{
    proof {
        law_canonical_key_is_least(state);
        let s = choose|s: int| 0 <= s < 8 && canonical_key_of(state) == orientation_key(state, s);
        lemma_le_bytes_len(packed_value(transformed_state(state, s)), key_len(state.config.board_size as int));
    }
    canonical_key(state).0
}

proof fn lemma_le_bytes_len(value: nat, n: nat)
    ensures
        le_bytes(value, n).len() == n,
    decreases n,
{
    if n > 0 {
        lemma_le_bytes_len(value / 256, (n - 1) as nat);
    }
}

// ---------------------------------------------------------------------------
// Decoding
// ---------------------------------------------------------------------------

/// The number stored little-endian in `bytes`.
pub open spec fn le_value(bytes: Seq<u8>) -> nat
    decreases bytes.len(),
{
    if bytes.len() == 0 {
        0
    } else {
        bytes[0] as nat + 256 * le_value(bytes.drop_first())
    }
}

/// The `width`-bit field of `value` that starts at bit `at`.
pub open spec fn bit_field(value: nat, at: nat, width: nat) -> nat {
    (value / pow2(at)) % pow2(width)
}

/// The squares below `n` whose two-bit code in `value` is `code`.
pub open spec fn code_mask(value: nat, code: nat, n: nat) -> u64
    decreases n,
{
    if n == 0 {
        0
    } else {
        let rest = code_mask(value, code, (n - 1) as nat);
        if bit_field(value, 2 * (n - 1) as nat, 2) == code {
            rest | single(n - 1)
        } else {
            rest
        }
    }
}

/// A marker field: the cell count means none.
pub open spec fn marker_of_field(field: nat, cells: nat) -> Option<u8> {
    if field == cells {
        None
    } else {
        Some(field as u8)
    }
}

/// What decoding `key` gives: the canonical representative state, with the
/// reserves rebuilt from the fixed per-player inventory, or the first
/// problem found.
pub open spec fn decoded_key(key: Seq<u8>, board_size: u8, reserve_per_player: u8) -> Result<
    GameState,
    Seq<char>,
> {
    let size = board_size as int;
    let cells = cell_count(size);
    let width = marker_width(size);
    let value = le_value(key);
    let light = code_mask(value, 1, cells);
    let dark = code_mask(value, 2, cells);
    let forbidden = code_mask(value, 3, cells);
    let first = bit_field(value, 2 * cells + 1, width);
    let second = bit_field(value, 2 * cells + 1 + width, width);
    if !codec_size(size) {
        Err("golden key codec supports board sizes 3 through 7"@)
    } else if key.len() != key_len(size) {
        Err("canonical key has "@ + decimal_text(key.len()) + " bytes, expected "@ + decimal_text(
            key_len(size),
        ))
    } else if value >= pow2(used_bits(size)) {
        Err("canonical key sets a reserved high bit"@)
    } else if first > cells || second > cells {
        Err("canonical key contains an out-of-range relocation marker"@)
    } else if light & dark != 0 || forbidden & (light | dark) != 0 {
        Err("canonical key overlaps pieces or forbidden squares"@)
    } else if bit_count(light) > reserve_per_player || bit_count(dark) > reserve_per_player {
        Err("canonical key exceeds the fixed piece inventory"@)
    } else if reserve_per_player == 0 || reserve_per_player > 64 {
        Err("reserve outside 1..64"@)
    } else {
        Ok(
            GameState {
                config: BoardConfig {
                    board_size,
                    reserve_per_player,
                    max_plies: DEFAULT_MAX_PLIES,
                },
                light,
                dark,
                reserve: [
                    (reserve_per_player - bit_count(light)) as u8,
                    (reserve_per_player - bit_count(dark)) as u8,
                ],
                turn: if bit_field(value, 2 * cells, 1) == 0 {
                    Player::Light
                } else {
                    Player::Dark
                },
                forbidden,
                last_relocated_to: [marker_of_field(first, cells), marker_of_field(second, cells)],
                last_capture: 0,
                last_player: None,
                winner: None,
                ply: 0,
            },
        )
    }
}

proof fn lemma_le_value_bound(bytes: Seq<u8>)
    ensures
        le_value(bytes) < pow2(8 * bytes.len()),
    decreases bytes.len(),
{
    vstd::arithmetic::power2::lemma2_to64();
    if bytes.len() > 0 {
        let rest = bytes.drop_first();
        lemma_le_value_bound(rest);
        lemma_stack_field(bytes[0] as nat, le_value(rest), 8, 8 * rest.len());
        assert(le_value(rest) * pow2(8) == 256 * le_value(rest));
        assert(8 + 8 * rest.len() == 8 * bytes.len());
    }
}

/// The next field of `value`: dividing the value shifted by `at` bits by
/// 2^width shifts it by `at + width` bits.
proof fn lemma_shift_step(value: nat, at: nat, width: nat)
    ensures
        (value / pow2(at)) / pow2(width) == value / pow2(at + width),
{
    lemma_pow2_pos(at);
    lemma_pow2_pos(width);
    lemma_pow2_adds(at, width);
    lemma_div_denominator(value as int, pow2(at) as int, pow2(width) as int);
}

/// `2^k` as a machine integer.
fn power_of_two(k: u32) -> (r: u128)
    requires
        k <= 112,
    ensures
        r == pow2(k as nat),
{
    let mut r: u128 = 1;
    let mut i: u32 = 0;
    proof {
        vstd::arithmetic::power2::lemma2_to64();
    }
    while i < k
        invariant
            i <= k <= 112,
            r == pow2(i as nat),
        decreases k - i,
    {
        proof {
            vstd::arithmetic::power2::lemma2_to64();
            lemma_pow2_adds(i as nat, 1);
            lemma_pow2_below_ceiling(i as nat + 1);
        }
        r = r * 2;
        i = i + 1;
    }
    r
}

/// Decode a canonical key into its canonical representative state. Reserve
/// counts are rebuilt from the fixed inventory and the piece counts, because
/// the namespace already fixes the reserve per player.
pub fn decode_canonical_position_key(key: &[u8], board_size: u8, reserve_per_player: u8) -> (r:
    Result<GameState, String>)
    ensures
        match r {
            Ok(state) => decoded_key(key@, board_size, reserve_per_player) == Ok::<
                GameState,
                Seq<char>,
            >(state),
            Err(e) => decoded_key(key@, board_size, reserve_per_player) == Err::<
                GameState,
                Seq<char>,
            >(e@),
        },
{
    let key_bytes = match key_bytes_for_board_size(board_size) {
        Ok(n) => n,
        Err(e) => {
            return Err(e);
        },
    };
    let ghost size = board_size as int;
    proof {
        lemma_codec_widths(size);
    }
    if key.len() != key_bytes {
        let message = String::from_str("canonical key has ").concat(
            decimal_string_u64(key.len() as u64).as_str(),
        ).concat(" bytes, expected ").concat(decimal_string_u64(key_bytes as u64).as_str());
        return Err(message);
    }
    let ghost value_spec = le_value(key@);
    let mut value: u128 = 0;
    let mut i: usize = key.len();
    proof {
        assert(key@.skip(key.len() as int) =~= Seq::<u8>::empty());
        vstd::arithmetic::power2::lemma2_to64();
    }
    while i > 0
        invariant
            i <= key.len() <= 14,
            value == le_value(key@.skip(i as int)),
            value < pow2(8 * (key.len() - i) as nat),
        decreases i,
    {
        proof {
            let tail = key@.skip(i as int - 1);
            assert(tail.drop_first() =~= key@.skip(i as int));
            assert(tail[0] == key@[i as int - 1]);
            lemma_le_value_bound(tail);
            lemma_pow2_below_ceiling(8 * tail.len());
        }
        i = i - 1;
        value = value * 256 + key[i] as u128;
    }
    proof {
        assert(key@.skip(0) =~= key@);
    }
    let cells = board_size * board_size;
    let width = count_bits(cells);
    let used = 2 * (cells as u32) + 1 + 2 * (width as u32);
    let limit = power_of_two(used);
    if value >= limit {
        return Err(String::from_str("canonical key sets a reserved high bit"));
    }
    let mut light: u64 = 0;
    let mut dark: u64 = 0;
    let mut forbidden: u64 = 0;
    let mut rest = value;
    let mut square: u8 = 0;
    proof {
        vstd::arithmetic::power2::lemma2_to64();
        assert(value_spec / 1 == value_spec);
    }
    while square < cells
        invariant
            9 <= cells <= 49,
            square <= cells,
            rest == value_spec / pow2(2 * square as nat),
            value == value_spec,
            light == code_mask(value_spec, 1, square as nat),
            dark == code_mask(value_spec, 2, square as nat),
            forbidden == code_mask(value_spec, 3, square as nat),
        decreases cells - square,
    {
        proof {
            vstd::arithmetic::power2::lemma2_to64();
            lemma_shift_step(value_spec, 2 * square as nat, 2);
            assert(2 * square as nat + 2 == 2 * (square + 1) as nat);
        }
        let code = rest % 4;
        if code == 1 {
            light = light | bit(square);
        } else if code == 2 {
            dark = dark | bit(square);
        } else if code == 3 {
            forbidden = forbidden | bit(square);
        }
        rest = rest / 4;
        square = square + 1;
    }
    proof {
        vstd::arithmetic::power2::lemma2_to64();
        lemma_shift_step(value_spec, 2 * cells as nat, 1);
    }
    let turn = if rest % 2 == 0 {
        Player::Light
    } else {
        Player::Dark
    };
    rest = rest / 2;
    let field_limit = power_of_two(width as u32);
    proof {
        lemma_shift_step(value_spec, 2 * cells as nat + 1, width as nat);
    }
    let first = rest % field_limit;
    rest = rest / field_limit;
    let second = rest % field_limit;
    if first > cells as u128 || second > cells as u128 {
        return Err(String::from_str("canonical key contains an out-of-range relocation marker"));
    }
    let first_marker = if first == cells as u128 {
        None
    } else {
        Some(first as u8)
    };
    let second_marker = if second == cells as u128 {
        None
    } else {
        Some(second as u8)
    };
    if light & dark != 0 || forbidden & (light | dark) != 0 {
        return Err(String::from_str("canonical key overlaps pieces or forbidden squares"));
    }
    let light_count = popcount(light);
    let dark_count = popcount(dark);
    if light_count > reserve_per_player as u32 || dark_count > reserve_per_player as u32 {
        return Err(String::from_str("canonical key exceeds the fixed piece inventory"));
    }
    let config = match BoardConfig::new(board_size, reserve_per_player) {
        Ok(config) => config,
        Err(e) => {
            return Err(e);
        },
    };
    Ok(
        GameState {
            config,
            light,
            dark,
            reserve: [
                reserve_per_player - light_count as u8,
                reserve_per_player - dark_count as u8,
            ],
            turn,
            forbidden,
            last_relocated_to: [first_marker, second_marker],
            last_capture: 0,
            last_player: None,
            winner: None,
            ply: 0,
        },
    )
}

} // verus!
