use pathagon_engine::golden::GoldenOutcome;
use pathagon_engine::ground_truth::GroundTruthOutcome;
use pathagon_engine::promotion::{
    action_code, distance_bytes, to_golden, validate_inventory, NO_DISTANCE,
};
use pathagon_engine::{Action, BoardConfig, GameState};

#[test]
fn inventory_validation_rejects_overlap_and_accepts_fixed_totals() {
    let mut state = GameState::with_config(BoardConfig::default());
    assert!(validate_inventory(&state).is_ok());
    state.light = 1;
    state.dark = 1;
    assert!(validate_inventory(&state).is_err());
}

#[test]
fn inventory_errors_follow_the_check_order() {
    let mut state = GameState::with_config(BoardConfig::default());
    state.light = 1_u64 << 49;
    assert_eq!(
        validate_inventory(&state).unwrap_err(),
        "position has bits outside the board"
    );
    state.light = 1;
    state.dark = 1;
    assert_eq!(
        validate_inventory(&state).unwrap_err(),
        "position light/dark masks overlap"
    );
    state.dark = 2;
    state.forbidden = 2;
    assert_eq!(
        validate_inventory(&state).unwrap_err(),
        "position forbidden mask overlaps a piece"
    );
    state.forbidden = 0;
    state.last_relocated_to = [Some(49), None];
    assert_eq!(
        validate_inventory(&state).unwrap_err(),
        "position relocation marker is outside the board"
    );
    state.last_relocated_to = [None, None];
    assert_eq!(
        validate_inventory(&state).unwrap_err(),
        "position inventory does not match reserve-per-player"
    );
    state.reserve = [13, 13];
    assert!(validate_inventory(&state).is_ok());
}

#[test]
fn action_codes_number_places_then_relocations() {
    assert_eq!(action_code(Action::Place { to: 48 }), 48);
    assert_eq!(action_code(Action::Relocate { from: 0, to: 0 }), 49);
    assert_eq!(action_code(Action::Relocate { from: 1, to: 2 }), 100);
    assert_eq!(distance_bytes(Some(7)), 7);
    assert_eq!(distance_bytes(None), NO_DISTANCE);
    assert_eq!(to_golden(GroundTruthOutcome::Win), GoldenOutcome::Win);
    assert_eq!(to_golden(GroundTruthOutcome::Loss), GoldenOutcome::Loss);
    assert_eq!(to_golden(GroundTruthOutcome::Draw), GoldenOutcome::Draw);
}

#[test]
fn action_codes_match_the_7x7_corpus_numbering() {
    assert_eq!(action_code(Action::Place { to: 48 }), 48);
    assert_eq!(action_code(Action::Relocate { from: 0, to: 0 }), 49);
    assert_eq!(action_code(Action::Relocate { from: 1, to: 2 }), 100);
    assert_eq!(
        pathagon_engine::golden_book::action_from_code(action_code(Action::Relocate { from: 1, to: 2 }), 7)
            .unwrap(),
        Action::Relocate { from: 1, to: 2 }
    );
}
