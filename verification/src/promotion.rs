//! Checks and codes used when solved endgame values are promoted into
//! golden tables: the inventory check of a decoded position, the compact
//! action numbering, and the byte forms of outcomes and distances.

use vstd::prelude::*;

use crate::bitboard::{bit_count, has_bit, popcount};
use crate::golden::GoldenOutcome;
use crate::ground_truth::GroundTruthOutcome;
use crate::rules::{Action, GameState};

verus! {

/// The distance that an action book stores for "no distance".
pub const NO_DISTANCE: u16 = 0xffff;

/// No square of `mask` lies at or beyond `cells`.
pub open spec fn on_board(mask: u64, cells: int) -> bool {
    forall|i: int| 0 <= i < 64 && has_bit(mask, i) ==> i < cells
}

/// A decoded position fit for promotion: every bit on the board, the two
/// colours and the forbidden squares apart, relocation markers on the
/// board, and each side's pieces and reserve adding up to the configured
/// inventory.
pub open spec fn inventory_valid(state: GameState) -> bool {
    let cells = state.config.spec_cells();
    &&& on_board(state.light, cells)
    &&& on_board(state.dark, cells)
    &&& on_board(state.forbidden, cells)
    &&& state.light & state.dark == 0
    &&& state.forbidden & (state.light | state.dark) == 0
    &&& (state.last_relocated_to[0] matches Some(sq) ==> sq < cells)
    &&& (state.last_relocated_to[1] matches Some(sq) ==> sq < cells)
    &&& bit_count(state.light) + state.reserve[0] == state.config.reserve_per_player
    &&& bit_count(state.dark) + state.reserve[1] == state.config.reserve_per_player
}

/// The message of the first inventory check that `state` fails.
pub open spec fn inventory_error(state: GameState) -> Seq<char> {
    let cells = state.config.spec_cells();
    if !(on_board(state.light, cells) && on_board(state.dark, cells) && on_board(state.forbidden, cells)) {
        "position has bits outside the board"@
    } else if state.light & state.dark != 0 {
        "position light/dark masks overlap"@
    } else if state.forbidden & (state.light | state.dark) != 0 {
        "position forbidden mask overlaps a piece"@
    } else if !((state.last_relocated_to[0] matches Some(sq) ==> sq < cells) && (
    state.last_relocated_to[1] matches Some(sq) ==> sq < cells)) {
        "position relocation marker is outside the board"@
    } else {
        "position inventory does not match reserve-per-player"@
    }
}

/// Checks the inventory of a decoded position, in the order above.
pub fn validate_inventory(state: &GameState) -> (r: Result<(), String>)
    requires
        3 <= state.config.board_size <= 8,
    ensures
        r is Ok <==> inventory_valid(*state),
        r matches Err(e) ==> e@ == inventory_error(*state),
{
    let board = state.config.full_board();
    proof {
        crate::geometry::lemma_cells(state.config.board_size as int);
    }
    let outside = state.light & !board != 0 || state.dark & !board != 0 || state.forbidden & !board != 0;
    proof {
        let cells = state.config.spec_cells();
        assert(!outside <==> (on_board(state.light, cells) && on_board(state.dark, cells) && on_board(state.forbidden, cells))) by {
            lemma_outside(state.light, board, cells);
            lemma_outside(state.dark, board, cells);
            lemma_outside(state.forbidden, board, cells);
        }
    }
    if outside {
        return Err(String::from_str("position has bits outside the board"));
    }
    if state.light & state.dark != 0 {
        return Err(String::from_str("position light/dark masks overlap"));
    }
    if state.forbidden & (state.light | state.dark) != 0 {
        return Err(String::from_str("position forbidden mask overlaps a piece"));
    }
    let cells = state.config.cells();
    let markers_ok = (match state.last_relocated_to[0] {
        Some(square) => square < cells,
        None => true,
    }) && (match state.last_relocated_to[1] {
        Some(square) => square < cells,
        None => true,
    });
    if !markers_ok {
        return Err(String::from_str("position relocation marker is outside the board"));
    }
    let light_total = popcount(state.light) as u16 + state.reserve[0] as u16;
    let dark_total = popcount(state.dark) as u16 + state.reserve[1] as u16;
    let expected = state.config.reserve_per_player as u16;
    if light_total != expected || dark_total != expected {
        return Err(String::from_str("position inventory does not match reserve-per-player"));
    }
    Ok(())
}

proof fn lemma_outside(mask: u64, board: u64, cells: int)
    requires
        forall|j: int| has_bit(board, j) == (0 <= j < cells),
        cells <= 64,
    ensures
        (mask & !board == 0) <==> on_board(mask, cells),
{
    if mask & !board == 0 {
        assert forall|i: int| 0 <= i < 64 && has_bit(mask, i) implies i < cells by {
            crate::bitboard::lemma_has_bit_and(mask, !board, i);
            crate::bitboard::lemma_has_bit_not(board, i);
            crate::bitboard::lemma_has_bit_zero(i);
        }
    } else {
        crate::bitboard::lemma_nonzero_has_bit(mask & !board);
        let i = choose|i: int| 0 <= i < 64 && has_bit(mask & !board, i);
        crate::bitboard::lemma_has_bit_and(mask, !board, i);
        crate::bitboard::lemma_has_bit_not(board, i);
    }
}

/// The compact number of an action on the deployed 7x7 board: placements
/// are their destination, relocations follow from 49 in origin-major order.
pub open spec fn spec_action_code(action: Action) -> int {
    match action {
        Action::Place { to } => to as int,
        Action::Relocate { from, to } => 49 + from as int * 49 + to as int,
    }
}

pub fn action_code(action: Action) -> (r: u16)
    ensures
        r == spec_action_code(action),
{
    match action {
        Action::Place { to } => to as u16,
        Action::Relocate { from, to } => 49 + from as u16 * 49 + to as u16,
    }
}

/// The stored form of an optional distance.
pub fn distance_bytes(distance: Option<u16>) -> (r: u16)
    ensures
        r == (match distance {
            Some(d) => d,
            None => NO_DISTANCE,
        }),
{
    match distance {
        Some(d) => d,
        None => NO_DISTANCE,
    }
}

/// The golden outcome of a solved value; unknown values are never promoted.
pub fn to_golden(outcome: GroundTruthOutcome) -> (r: GoldenOutcome)
    requires
        outcome != GroundTruthOutcome::Unknown,
    ensures
        r == (match outcome {
            GroundTruthOutcome::Loss => GoldenOutcome::Loss,
            GroundTruthOutcome::Draw => GoldenOutcome::Draw,
            _ => GoldenOutcome::Win,
        }),
{
    match outcome {
        GroundTruthOutcome::Loss => GoldenOutcome::Loss,
        GroundTruthOutcome::Draw => GoldenOutcome::Draw,
        _ => GoldenOutcome::Win,
    }
}

} // verus!
