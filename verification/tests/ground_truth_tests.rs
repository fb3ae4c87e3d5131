use pathagon_engine::ground_truth::{
    aggregate_values, analyze, GroundTruthConfig, GroundTruthOutcome, GroundTruthValue, History,
    RepetitionKey, Solver,
};
use pathagon_engine::{BoardConfig, GameState, Player};

fn non_terminal_state() -> GameState {
    GameState {
        config: BoardConfig::new(3, 3).expect("valid config"),
        light: 1 << 6,
        dark: 1 << 2,
        reserve: [0, 0],
        turn: Player::Light,
        forbidden: 0,
        last_relocated_to: [None, None],
        last_capture: 0,
        last_player: None,
        winner: None,
        ply: 4,
    }
}

#[test]
fn horizon_cutoff_is_unknown_not_draw() {
    let analysis = analyze(
        non_terminal_state(),
        GroundTruthConfig {
            horizon: Some(0),
            max_nodes: 1_000,
            max_plies: None,
        },
    );
    assert_eq!(analysis.outcome, GroundTruthOutcome::Unknown);
    assert!(!analysis.optimal_actions_complete);
    assert!(analysis
        .actions
        .iter()
        .all(|action| { action.outcome == GroundTruthOutcome::Unknown }));
}

#[test]
fn node_cutoff_is_unknown_not_draw() {
    let analysis = analyze(
        non_terminal_state(),
        GroundTruthConfig {
            horizon: None,
            max_nodes: 0,
            max_plies: None,
        },
    );
    assert_eq!(analysis.outcome, GroundTruthOutcome::Unknown);
    assert!(analysis.stats.exhausted);
}

#[test]
fn finite_ply_boundary_is_an_exact_draw() {
    let mut state = non_terminal_state();
    state.ply = 4;
    let analysis = analyze(
        state,
        GroundTruthConfig {
            horizon: None,
            max_nodes: 1,
            max_plies: Some(4),
        },
    );
    assert_eq!(analysis.outcome, GroundTruthOutcome::Draw);
    assert!(analysis.optimal_actions_complete);
}

#[test]
fn outcomes_and_aggregation_preserve_unknown_semantics() {
    for (outcome, known, negated) in [
        (GroundTruthOutcome::Loss, true, GroundTruthOutcome::Win),
        (GroundTruthOutcome::Draw, true, GroundTruthOutcome::Draw),
        (GroundTruthOutcome::Win, true, GroundTruthOutcome::Loss),
        (
            GroundTruthOutcome::Unknown,
            false,
            GroundTruthOutcome::Unknown,
        ),
    ] {
        assert_eq!(outcome.is_known(), known);
        assert_eq!(outcome.negate(), negated);
    }
    assert_eq!(
        aggregate_values(
            &[GroundTruthValue {
                outcome: GroundTruthOutcome::Win,
                distance: Some(3)
            }],
            false,
        ),
        GroundTruthValue {
            outcome: GroundTruthOutcome::Win,
            distance: Some(3)
        }
    );
    assert_eq!(
        aggregate_values(
            &[
                GroundTruthValue {
                    outcome: GroundTruthOutcome::Win,
                    distance: None
                },
                GroundTruthValue {
                    outcome: GroundTruthOutcome::Win,
                    distance: Some(2)
                },
            ],
            false,
        ),
        GroundTruthValue {
            outcome: GroundTruthOutcome::Win,
            distance: Some(2)
        }
    );
    assert_eq!(
        aggregate_values(
            &[GroundTruthValue {
                outcome: GroundTruthOutcome::Unknown,
                distance: None
            }],
            true,
        )
        .outcome,
        GroundTruthOutcome::Unknown
    );
    assert_eq!(
        aggregate_values(
            &[GroundTruthValue {
                outcome: GroundTruthOutcome::Loss,
                distance: Some(2)
            }],
            true,
        ),
        GroundTruthValue {
            outcome: GroundTruthOutcome::Loss,
            distance: Some(2)
        }
    );
    assert_eq!(
        aggregate_values(
            &[
                GroundTruthValue {
                    outcome: GroundTruthOutcome::Loss,
                    distance: Some(2)
                },
                GroundTruthValue {
                    outcome: GroundTruthOutcome::Loss,
                    distance: Some(4)
                },
            ],
            true,
        )
        .distance,
        Some(4)
    );
    assert_eq!(
        aggregate_values(
            &[GroundTruthValue {
                outcome: GroundTruthOutcome::Draw,
                distance: None
            }],
            true,
        )
        .outcome,
        GroundTruthOutcome::Draw
    );
}

#[test]
fn solver_history_cache_and_terminal_precedence_are_explicit() {
    let state = non_terminal_state();
    let mut history = History::new();
    let key = RepetitionKey::from_state(state);
    history.insert(key, 0);
    let signature = Solver::history_signature(&history);
    assert!(signature.is_empty());
    let next = Solver::next_history(&history, state);
    assert_eq!(next.count(key), 1);
    assert_eq!(Solver::key(state, Some(2), &next).horizon, Some(2));

    let mut solver = Solver::new(GroundTruthConfig::default());
    assert!(solver.terminal_value(state, &next, None).is_none());
    let horizon = solver.terminal_value(state, &next, Some(0)).unwrap();
    assert_eq!(horizon.outcome, GroundTruthOutcome::Unknown);
    let mut repeated = next.copy();
    repeated.insert(key, 3);
    assert_eq!(
        solver
            .terminal_value(state, &repeated, None)
            .unwrap()
            .outcome,
        GroundTruthOutcome::Draw
    );
    let mut finite = solver.config();
    finite.max_plies = Some(state.ply);
    let finite_solver = Solver::new(finite);
    assert_eq!(
        finite_solver
            .terminal_value(state, &next, None)
            .unwrap()
            .outcome,
        GroundTruthOutcome::Draw
    );

    let mut won = state;
    won.winner = Some(Player::Light);
    won.turn = Player::Light;
    assert_eq!(
        solver.terminal_value(won, &next, None).unwrap().outcome,
        GroundTruthOutcome::Win
    );
    won.turn = Player::Dark;
    assert_eq!(
        solver.terminal_value(won, &next, None).unwrap().outcome,
        GroundTruthOutcome::Loss
    );

    let first = solver.solve(state, &next, Some(0));
    let entries_before = solver.table_len();
    let second = solver.solve(state, &next, Some(0));
    assert_eq!(first, second);
    assert_eq!(solver.table_len(), entries_before);
    assert_eq!(solver.cache_hits(), 1);
}

#[test]
fn analysis_handles_terminal_and_no_legal_action_positions() {
    let mut terminal = non_terminal_state();
    terminal.winner = Some(Player::Light);
    terminal.turn = Player::Light;
    let winning = analyze(terminal, GroundTruthConfig::default());
    assert_eq!(winning.outcome, GroundTruthOutcome::Win);
    assert!(winning.actions.is_empty());
    assert!(winning.optimal_actions.is_empty());
    terminal.turn = Player::Dark;
    assert_eq!(
        analyze(terminal, GroundTruthConfig::default()).outcome,
        GroundTruthOutcome::Loss
    );

    let no_moves = GameState {
        config: BoardConfig::new(3, 4).unwrap(),
        light: (1_u64 << 0) | (1_u64 << 1) | (1_u64 << 3) | (1_u64 << 4),
        dark: (1_u64 << 2) | (1_u64 << 5) | (1_u64 << 6) | (1_u64 << 7),
        reserve: [0, 0],
        turn: Player::Light,
        forbidden: 1_u64 << 8,
        last_relocated_to: [None, None],
        last_capture: 0,
        last_player: None,
        winner: None,
        ply: 3,
    };
    let analysis = analyze(no_moves, GroundTruthConfig::default());
    assert_eq!(analysis.outcome, GroundTruthOutcome::Draw);
    assert!(analysis.optimal_actions_complete);
    assert!(analysis.actions.is_empty());
    assert_eq!(analysis.stats.nodes, 1);
}

#[test]
fn a_won_root_has_a_win_in_one() {
    let config = BoardConfig::new(3, 4).expect("valid config");
    let state = GameState {
        config,
        light: (1 << 0) | (1 << 3),
        dark: (1 << 1) | (1 << 2),
        reserve: [2, 2],
        turn: Player::Light,
        forbidden: 0,
        last_relocated_to: [None, None],
        last_capture: 0,
        last_player: None,
        winner: None,
        ply: 4,
    };
    let analysis = analyze(
        state,
        GroundTruthConfig {
            horizon: Some(1),
            max_nodes: 1_000,
            max_plies: None,
        },
    );
    assert_eq!(analysis.outcome, GroundTruthOutcome::Win);
    assert_eq!(analysis.distance, Some(1));
    assert!(analysis
        .optimal_actions
        .contains(&pathagon_engine::Action::Place { to: 6 }));
}

#[test]
fn cut_off_labels_are_unknown_and_ply_limit_labels_are_draws() {
    let state = non_terminal_state();
    let starved = analyze(
        state,
        GroundTruthConfig {
            horizon: None,
            max_nodes: 0,
            max_plies: None,
        },
    );
    assert!(!starved.actions.is_empty());
    for label in &starved.actions {
        let child = state.apply_legal(label.action).state;
        if child.winner.is_none() {
            assert_eq!(label.outcome, GroundTruthOutcome::Unknown);
        }
    }
    let capped = analyze(
        state,
        GroundTruthConfig {
            horizon: None,
            max_nodes: 1,
            max_plies: Some(4),
        },
    );
    assert!(!capped.actions.is_empty());
    for label in &capped.actions {
        let child = state.apply_legal(label.action).state;
        if child.winner.is_none() {
            assert_eq!(label.outcome, GroundTruthOutcome::Draw);
        }
    }
}
