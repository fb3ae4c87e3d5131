use pathagon_engine::bitboard::bit;
use pathagon_engine::{
    has_winning_path, parse_action, winning_path, Action, BoardConfig, GameState, Player,
    MAX_BOARD_SIZE, MIN_BOARD_SIZE,
};

#[test]
fn empty_board_has_49_moves() {
    assert_eq!(GameState::new().legal_actions().len(), 49);
}

#[test]
fn variable_boards_have_size_appropriate_place_moves() {
    for size in 4..=7 {
        let state = GameState::with_board_size(size);
        assert_eq!(state.legal_actions().len(), (size * size) as usize);
    }
}

#[test]
fn relocation_changes_the_board_and_cannot_repeat_piece() {
    let mut state = GameState::new();
    state.light = (0..14).fold(0, |mask, square| mask | bit(square));
    state.reserve[Player::Light.index()] = 0;
    let moved = state
        .apply(Action::Relocate { from: 0, to: 48 })
        .unwrap()
        .state;
    assert!(!moved
        .legal_actions()
        .iter()
        .any(|action| matches!(action, Action::Relocate { from: 48, .. })));
    assert!(state.apply(Action::Relocate { from: 0, to: 0 }).is_err());
}

#[test]
fn allocation_free_action_count_matches_canonical_actions() {
    let mut state = GameState::new();
    let mut seed = 0x51f2_9ab3_u32;
    for _ in 0..96 {
        assert_eq!(state.legal_action_count(), state.legal_actions().len());
        let actions = state.legal_actions();
        let Some(action) = actions.get((seed as usize) % actions.len().max(1)).copied() else {
            break;
        };
        seed = seed.wrapping_mul(1_664_525).wrapping_add(1_013_904_223);
        state = state.apply_legal(action).state;
        if state.winner.is_some() {
            break;
        }
    }
}

#[test]
fn bitboard_winner_check_matches_path_reconstruction() {
    for board_size in MIN_BOARD_SIZE..=MAX_BOARD_SIZE {
        let mut state = GameState::with_board_size(board_size);
        let mut seed = u32::from(board_size).wrapping_mul(0x9e37_79b9);
        for _ in 0..128 {
            for player in [Player::Light, Player::Dark] {
                assert_eq!(
                    has_winning_path(state, player),
                    !winning_path(state, player).is_empty(),
                    "winner mismatch on {board_size}x{board_size} for {}",
                    player.as_str()
                );
            }
            let actions = state.legal_actions();
            let Some(action) = actions.get((seed as usize) % actions.len().max(1)).copied()
            else {
                break;
            };
            seed = seed.wrapping_mul(1_664_525).wrapping_add(1_013_904_223);
            state = state.apply_legal(action).state;
            if state.winner.is_some() {
                break;
            }
        }
    }
}

#[test]
fn board_config_bounds_and_defaults() {
    assert!(BoardConfig::new(2, 4).is_err());
    assert!(BoardConfig::new(9, 4).is_err());
    assert!(BoardConfig::new(5, 0).is_err());
    assert!(BoardConfig::new(5, 65).is_err());
    assert_eq!(
        BoardConfig::new(5, 10).unwrap(),
        BoardConfig { board_size: 5, reserve_per_player: 10, max_plies: 180 }
    );
    let config = BoardConfig::default();
    assert_eq!(config.cells(), 49);
    assert_eq!(config.full_board(), (1_u64 << 49) - 1);
    assert_eq!(BoardConfig::new(8, 1).unwrap().full_board(), u64::MAX);
    assert!(config.with_max_plies(0).is_err());
    assert!(config.with_max_plies(4097).is_err());
    assert_eq!(config.with_max_plies(30).unwrap().max_plies, 30);
}

#[test]
fn players_and_actions_have_stable_codes() {
    assert_eq!(Player::Light.other(), Player::Dark);
    assert_eq!(Player::Dark.other().other(), Player::Dark);
    assert_eq!(Player::Dark.index(), 1);
    assert_eq!(Player::Light.as_str(), "light");
    assert_eq!(Action::Place { to: 7 }.order(), 7);
    assert_eq!(Action::Relocate { from: 2, to: 5 }.order(), 133);
    assert_eq!(Action::Relocate { from: 2, to: 5 }.destination(), 5);
}

#[test]
fn action_notation_round_trips_and_reports_errors() {
    assert_eq!(parse_action("P12"), Ok(Action::Place { to: 12 }));
    assert_eq!(parse_action("P+7"), Ok(Action::Place { to: 7 }));
    assert_eq!(
        parse_action("R3>48"),
        Ok(Action::Relocate { from: 3, to: 48 })
    );
    assert_eq!(parse_action("X1").unwrap_err(), "invalid action: X1");
    assert_eq!(parse_action("R3").unwrap_err(), "invalid relocation: R3");
    assert_eq!(parse_action("Pa").unwrap_err(), "invalid square: a");
    assert_eq!(parse_action("P64").unwrap_err(), "square outside board: 64");
    assert_eq!(parse_action("R1>200").unwrap_err(), "square outside board: 200");
    assert_eq!(parse_action("R>2").unwrap_err(), "invalid square: ");
}

#[test]
fn placement_captures_flanked_pieces_and_forbids_their_squares() {
    let mut state = GameState::new();
    // Light on 8, dark on 15; light places on 22 and captures 15 (column 1).
    state.light = bit(8);
    state.dark = bit(15);
    state.reserve = [13, 13];
    let transition = state.apply(Action::Place { to: 22 }).unwrap();
    assert_eq!(transition.captured, bit(15));
    assert_eq!(transition.state.dark, 0);
    assert_eq!(transition.state.reserve, [12, 14]);
    assert_eq!(transition.state.forbidden, bit(15));
    assert_eq!(transition.state.last_capture, 1);
    assert_eq!(transition.state.turn, Player::Dark);
    assert_eq!(transition.state.ply, 1);
    assert!(!transition
        .state
        .legal_actions()
        .contains(&Action::Place { to: 15 }));
}

#[test]
fn a_connected_column_wins_and_stops_play() {
    let mut state = GameState::with_board_size(3);
    state.light = bit(0) | bit(3);
    state.reserve = [4, 6];
    let transition = state.apply(Action::Place { to: 6 }).unwrap();
    assert_eq!(transition.state.winner, Some(Player::Light));
    assert_eq!(winning_path(transition.state, Player::Light), vec![6, 3, 0]);
    assert!(transition.state.legal_actions().is_empty());
    assert_eq!(transition.state.legal_action_count(), 0);
}

#[test]
fn the_winning_path_is_a_shortest_chain() {
    let mut state = GameState::with_board_size(5);
    // A winding chain down columns 0..2 and a straight one down column 4.
    let winding: [u8; 7] = [20, 15, 10, 11, 12, 7, 2];
    let straight: [u8; 5] = [24, 19, 14, 9, 4];
    state.light = winding
        .iter()
        .chain(straight.iter())
        .fold(0_u64, |mask, square| mask | bit(*square));
    let path = winning_path(state, Player::Light);
    assert_eq!(path.len(), 5);
    assert_eq!(path, vec![24, 19, 14, 9, 4]);
}
