use pathagon_engine::contract::{ContractAction, ContractPlayer};
use pathagon_engine::model::ActionSpec;
use pathagon_engine::runtime::{
    apply_action_transition, legal_contract_actions, RuntimeActionResult, RuntimePosition,
    RuntimeSearchConfig, RuntimeSearchResult, MAX_RUNTIME_SEARCH_NODES,
};
use pathagon_engine::golden::{canonical_position_key, GoldenOutcome, WIN};
use pathagon_engine::search::{
    analyze_action, analyze_actions, search_best_action, search_best_action_with_golden_bytes,
    EvaluationWeights, SearchConfig,
};
use pathagon_engine::{Action, GameState, Player};

fn apply_transition(state: GameState, action: ContractAction) -> RuntimeActionResult {
    let position = RuntimePosition::from_state(state);
    let parsed = position.into_state().expect("portable position is accepted");
    apply_action_transition(parsed, action).expect("apply transition at runtime boundary")
}

#[test]
fn runtime_position_round_trips_rule_state() {
    let mut state = GameState::new();
    state.reserve = [13, 13];
    state = state.apply_legal(Action::Place { to: 23 }).state;
    let position = RuntimePosition::from_state(state);
    let restored = position.into_state().expect("parse runtime position");
    assert_eq!(restored, state);
}

#[test]
fn runtime_action_boundary_matches_native_rules() {
    let state = RuntimePosition::from_state(GameState::new())
        .into_state()
        .expect("initial state");
    let actions = legal_contract_actions(state);
    assert_eq!(actions.len(), 49);
    let next = apply_action_transition(state, actions[24]).expect("apply action");
    let next_state = next.position.into_state().expect("parse next state");
    assert_eq!(next_state.ply, 1);
}

#[test]
fn runtime_action_transition_reports_ordinary_placement() {
    let transition = apply_transition(GameState::new(), ContractAction::Place { to: 24 });

    assert_eq!(transition.player, ContractPlayer::Light);
    assert_eq!(transition.action, ContractAction::Place { to: 24 });
    assert!(transition.captured.is_empty());
    assert_eq!(transition.position.board[24], Some(ContractPlayer::Light));
    assert_eq!(transition.position.reserve.light, 13);
    assert_eq!(transition.position.reserve.dark, 14);
    assert!(transition.position.forbidden.is_empty());
    assert_eq!(transition.position.last_capture, 0);
    assert_eq!(transition.position.last_player, Some(ContractPlayer::Light));
    assert_eq!(transition.position.turn, ContractPlayer::Dark);
    assert_eq!(transition.position.winner, None);
    assert_eq!(transition.position.ply, 1);
}

#[test]
fn runtime_action_transition_reports_capture_and_post_state() {
    let mut state = GameState::new();
    state.light = 1_u64 << 21;
    state.dark = 1_u64 << 22;
    state.turn = Player::Light;
    let transition = apply_transition(state, ContractAction::Place { to: 23 });
    assert_eq!(transition.player, ContractPlayer::Light);
    assert_eq!(transition.action, ContractAction::Place { to: 23 });
    assert_eq!(transition.captured, vec![22]);
    assert_eq!(transition.position.forbidden, vec![22]);
    assert_eq!(transition.position.reserve.dark, 15);
    assert_eq!(transition.position.board[21], Some(ContractPlayer::Light));
    assert_eq!(transition.position.board[22], None);
    assert_eq!(transition.position.board[23], Some(ContractPlayer::Light));
    assert_eq!(transition.position.last_capture, 1);
    assert_eq!(transition.position.last_player, Some(ContractPlayer::Light));
    assert_eq!(transition.position.turn, ContractPlayer::Dark);
    assert_eq!(transition.position.ply, 1);
}

#[test]
fn runtime_action_transition_reports_relocation_capture() {
    let mut state = GameState::new();
    state.light = (1_u64 << 21) | (1_u64 << 30);
    state.dark = 1_u64 << 22;
    state.reserve = [0, 0];
    state.turn = Player::Light;

    let transition = apply_transition(state, ContractAction::Relocate { from: 30, to: 23 });

    assert_eq!(transition.player, ContractPlayer::Light);
    assert_eq!(
        transition.action,
        ContractAction::Relocate { from: 30, to: 23 }
    );
    assert_eq!(transition.captured, vec![22]);
    assert_eq!(transition.position.board[21], Some(ContractPlayer::Light));
    assert_eq!(transition.position.board[22], None);
    assert_eq!(transition.position.board[23], Some(ContractPlayer::Light));
    assert_eq!(transition.position.board[30], None);
    assert_eq!(transition.position.forbidden, vec![22]);
    assert_eq!(transition.position.last_relocated_to.light, Some(23));
    assert_eq!(transition.position.last_capture, 1);
    assert_eq!(transition.position.reserve.light, 0);
    assert_eq!(transition.position.reserve.dark, 1);
    assert_eq!(transition.position.turn, ContractPlayer::Dark);
    assert_eq!(transition.position.ply, 1);
}

#[test]
fn runtime_action_transition_reports_all_four_direction_captures() {
    let mut state = GameState::new();
    state.light = (1_u64 << 10) | (1_u64 << 22) | (1_u64 << 26) | (1_u64 << 38) | (1_u64 << 40);
    state.dark = (1_u64 << 17) | (1_u64 << 23) | (1_u64 << 25) | (1_u64 << 31);
    state.reserve = [0, 0];
    state.turn = Player::Light;

    let transition = apply_transition(state, ContractAction::Relocate { from: 40, to: 24 });

    assert_eq!(transition.captured, vec![17, 23, 25, 31]);
    assert_eq!(transition.position.forbidden, vec![17, 23, 25, 31]);
    assert_eq!(transition.position.last_capture, 4);
    assert_eq!(transition.position.reserve.dark, 4);
    assert_eq!(transition.position.board[24], Some(ContractPlayer::Light));
    assert_eq!(transition.position.board[40], None);
    for square in [17, 23, 25, 31] {
        assert_eq!(transition.position.board[square], None);
    }
    assert_eq!(transition.position.winner, None);
    assert_eq!(transition.position.turn, ContractPlayer::Dark);
}

#[test]
fn runtime_action_transition_reports_terminal_winner_and_path() {
    let mut state = GameState::new();
    state.light = (1_u64 << 7)
        | (1_u64 << 14)
        | (1_u64 << 21)
        | (1_u64 << 28)
        | (1_u64 << 35)
        | (1_u64 << 42);
    state.dark = 1_u64 << 1;
    state.reserve = [8, 13];
    state.turn = Player::Light;

    let transition = apply_transition(state, ContractAction::Place { to: 0 });

    assert_eq!(transition.captured, Vec::<u8>::new());
    assert_eq!(transition.position.board[0], Some(ContractPlayer::Light));
    assert_eq!(transition.position.winner, Some(ContractPlayer::Light));
    assert_eq!(transition.position.winning_path.len(), 7);
    assert!(transition.position.winning_path.contains(&0));
    assert!(transition.position.winning_path.contains(&42));
    assert_eq!(transition.position.turn, ContractPlayer::Dark);
    assert_eq!(transition.position.ply, 1);
}

#[test]
fn runtime_search_config_exposes_optional_tactical_proof_horizon() {
    let config = RuntimeSearchConfig {
        depth: 4,
        max_nodes: 32_000,
        beam_width: 256,
        weights: EvaluationWeights {
            path: 240,
            material: 110,
            capture: 700,
            structure: 55,
            threat: 130,
            edge: 80,
        },
        tactical_proof_horizon: Some(3),
    };
    assert_eq!(SearchConfig::from(config).tactical_proof_horizon, Some(3));
}

#[test]
fn runtime_search_config_clamps_browser_node_budget() {
    let config = RuntimeSearchConfig {
        depth: 100,
        max_nodes: 999_999_999,
        beam_width: 2,
        weights: EvaluationWeights::default(),
        tactical_proof_horizon: None,
    };
    assert_eq!(
        SearchConfig::from(config).max_nodes,
        MAX_RUNTIME_SEARCH_NODES
    );
    let small = RuntimeSearchConfig { max_nodes: 32, ..config };
    assert_eq!(SearchConfig::from(small).max_nodes, 32);
}

#[test]
fn runtime_positions_are_checked_on_the_way_in() {
    let mut position = RuntimePosition::from_state(GameState::new());
    position.last_capture = 5;
    assert_eq!(
        position.into_state().unwrap_err(),
        "last capture exceeds the four orthogonal directions"
    );
    let mut position = RuntimePosition::from_state(GameState::new());
    position.reserve.light = 300;
    assert_eq!(position.into_state().unwrap_err(), "light reserve exceeds u8");
    let mut position = RuntimePosition::from_state(GameState::new());
    position.reserve.dark = 256;
    assert_eq!(position.into_state().unwrap_err(), "dark reserve exceeds u8");
    let mut position = RuntimePosition::from_state(GameState::new());
    position.board.pop();
    assert!(position.into_state().is_err());
    let state = GameState::new();
    assert_eq!(
        apply_action_transition(state, ContractAction::Place { to: 49 }).unwrap_err(),
        "illegal Pathagon action"
    );
}

#[test]
fn search_results_cross_the_boundary_unchanged() {
    let config = SearchConfig {
        depth: 1,
        max_nodes: 100,
        beam_width: 16,
        ..SearchConfig::default()
    };
    let result = search_best_action(GameState::new(), config);
    let portable = RuntimeSearchResult::from(result);
    assert_eq!(portable.score, result.score);
    assert_eq!(portable.nodes, result.nodes);
    assert_eq!(portable.action.map(Action::from), result.action);
}

#[test]
fn model_action_specs_spell_kind_and_squares() {
    let place = ActionSpec::from(Action::Place { to: 48 });
    assert_eq!((place.kind, place.from, place.to), (0, 0, 48));
    let relocate = ActionSpec::from(Action::Relocate { from: 10, to: 42 });
    assert_eq!((relocate.kind, relocate.from, relocate.to), (1, 10, 42));
}

fn analysis_config() -> SearchConfig {
    SearchConfig::from(RuntimeSearchConfig {
        depth: 1,
        max_nodes: 100,
        beam_width: 16,
        weights: EvaluationWeights::default(),
        tactical_proof_horizon: None,
    })
}

#[test]
fn runtime_analysis_boundary_returns_canonical_scores() {
    let state = RuntimePosition::from_state(GameState::new())
        .into_state()
        .expect("initial state");
    let config = analysis_config();
    let actions = legal_contract_actions(state);
    let one = analyze_action(state, Action::from(actions[0]), config).expect("analyze action");
    assert_eq!(ContractAction::from(one.action), actions[0]);

    let many = analyze_actions(state, config, 7);
    assert_eq!(many.len(), 7);
    assert!(many.windows(2).all(|pair| pair[0].score >= pair[1].score));
}

#[test]
fn runtime_gold_bytes_expose_exact_value_without_fabricating_an_action() {
    let mut state = GameState::new();
    state.light = (1_u64 << 7)
        | (1_u64 << 14)
        | (1_u64 << 21)
        | (1_u64 << 28)
        | (1_u64 << 35)
        | (1_u64 << 42);
    state.dark = 1_u64 << 1;
    state.reserve = [8, 13];
    state.turn = Player::Light;
    let mut table = canonical_position_key(state);
    table.push(WIN);
    let (result, outcome, exact_action) =
        search_best_action_with_golden_bytes(state, analysis_config(), &table, None)
            .expect("run gold-aware runtime search");
    assert_eq!(outcome, Some(GoldenOutcome::Win));
    assert!(!exact_action);
    assert!(result.action.is_some());
}

#[test]
fn golden_bytes_without_a_proven_action_answer_as_the_plain_search() {
    let mut state = GameState::new();
    state.light = (1_u64 << 7)
        | (1_u64 << 14)
        | (1_u64 << 21)
        | (1_u64 << 28)
        | (1_u64 << 35)
        | (1_u64 << 42);
    state.dark = 1_u64 << 1;
    state.reserve = [8, 13];
    state.turn = Player::Light;
    let mut table = canonical_position_key(state);
    table.push(WIN);
    let (result, _, exact_action) =
        search_best_action_with_golden_bytes(state, analysis_config(), &table, None)
            .expect("run gold-aware runtime search");
    assert!(!exact_action);
    let plain = search_best_action(state, analysis_config());
    assert_eq!(result.action, plain.action);
    assert_eq!(result.score, plain.score);
    assert_eq!(result.nodes, plain.nodes);
    assert_eq!(result.completed_depth, plain.completed_depth);
}
