use pathagon_engine::evidence::{
    forced_block_actions, judge_selection, policy_target, proven_actions, urgency_targets,
};
use pathagon_engine::search::SearchConfig;
use pathagon_engine::golden::GoldenOutcome;
use pathagon_engine::golden_book::GoldenActionValue;
use pathagon_engine::{Action, BoardConfig, GameState};

fn label(action: Action, outcome: Option<GoldenOutcome>, distance: Option<u16>) -> GoldenActionValue {
    GoldenActionValue { action, outcome, distance }
}

#[test]
fn proven_actions_keep_legal_wins_in_order_once() {
    let state = GameState::with_config(BoardConfig::default());
    let legal = state.legal_actions();
    let values = vec![
        label(Action::Place { to: 9 }, Some(GoldenOutcome::Win), Some(1)),
        label(Action::Place { to: 3 }, Some(GoldenOutcome::Win), Some(3)),
        label(Action::Place { to: 9 }, Some(GoldenOutcome::Win), Some(1)),
        label(Action::Place { to: 4 }, Some(GoldenOutcome::Draw), None),
        label(Action::Relocate { from: 1, to: 2 }, Some(GoldenOutcome::Win), Some(1)),
    ];
    assert_eq!(
        proven_actions(&values, &legal),
        vec![Action::Place { to: 3 }, Action::Place { to: 9 }]
    );
}

#[test]
fn urgency_targets_chase_the_fastest_win_and_the_slowest_loss() {
    let values = vec![
        label(Action::Place { to: 7 }, Some(GoldenOutcome::Win), Some(5)),
        label(Action::Place { to: 2 }, Some(GoldenOutcome::Win), Some(3)),
        label(Action::Place { to: 1 }, Some(GoldenOutcome::Win), Some(3)),
        label(Action::Place { to: 4 }, Some(GoldenOutcome::Loss), Some(8)),
        label(Action::Place { to: 6 }, Some(GoldenOutcome::Loss), Some(2)),
        label(Action::Place { to: 5 }, Some(GoldenOutcome::Win), None),
    ];
    assert_eq!(
        urgency_targets(GoldenOutcome::Win, &values),
        Some((vec![Action::Place { to: 1 }, Action::Place { to: 2 }], 3))
    );
    assert_eq!(
        urgency_targets(GoldenOutcome::Loss, &values),
        Some((vec![Action::Place { to: 4 }], 8))
    );
    assert_eq!(urgency_targets(GoldenOutcome::Draw, &values), None);
    assert_eq!(urgency_targets(GoldenOutcome::Win, &values[3..5].to_vec()), None);
}

#[test]
fn the_opening_has_no_forced_block() {
    let state = GameState::with_config(BoardConfig::default());
    assert_eq!(forced_block_actions(state), None);
}

#[test]
fn selections_are_judged_against_the_labels() {
    let state = GameState::with_config(BoardConfig::default());
    let proven = vec![Action::Place { to: 24 }];
    let hit = judge_selection(state, &proven, Some(Action::Place { to: 24 }));
    assert!(hit.selected_legal && hit.matched_proven && !hit.terminal_win);
    let miss = judge_selection(state, &proven, Some(Action::Relocate { from: 0, to: 1 }));
    assert!(!miss.selected_legal && !miss.matched_proven && !miss.terminal_win);
    let none = judge_selection(state, &proven, None);
    assert!(!none.selected_legal && !none.matched_proven && !none.terminal_win);
}

#[test]
fn policy_targets_require_a_legal_archived_move() {
    let state = GameState::with_board_size(4);
    let config = SearchConfig { depth: 2, max_nodes: 500, beam_width: 8, ..SearchConfig::default() };
    let error = policy_target(state, Action::Relocate { from: 0, to: 1 }, config, 0, 0, false, None)
        .err()
        .unwrap();
    assert_eq!(error, "archived action is illegal at ply 0");
    let target = policy_target(state, Action::Place { to: 5 }, config, 0, 0, false, None).unwrap();
    assert!(!target.golden);
    assert!(state.legal_actions().contains(&target.action));
    assert!(target.nodes <= 500);
    let ranked = policy_target(state, Action::Place { to: 5 }, config, 3, 300, true, None).unwrap();
    assert!(!ranked.rankings.is_empty() && ranked.rankings.len() <= 3);
    assert_eq!(ranked.action, ranked.rankings[0].action);
}
