use pathagon_engine::frontier::{constructive_predecessors, replay};
use pathagon_engine::{Action, BoardConfig, GameState, Player};

fn almost_won() -> GameState {
    let mut state = GameState::new();
    state.light = (1_u64 << 7)
        | (1_u64 << 14)
        | (1_u64 << 21)
        | (1_u64 << 28)
        | (1_u64 << 35)
        | (1_u64 << 42);
    state.dark = 1_u64 << 1;
    state.reserve = [8, 13];
    state
}

#[test]
fn predecessors_of_a_won_position_replay_into_it() {
    let parent = almost_won();
    let terminal = parent.apply(Action::Place { to: 0 }).unwrap().state;
    assert_eq!(terminal.winner, Some(Player::Light));
    let predecessors = constructive_predecessors(terminal);
    assert!(predecessors
        .iter()
        .any(|(candidate, action)| *candidate == parent && *action == Action::Place { to: 0 }));
    for (candidate, action) in &predecessors {
        assert_eq!(candidate.turn, Player::Light);
        assert_eq!(candidate.apply(*action).unwrap().state, terminal);
        assert!(matches!(action, Action::Place { .. }));
    }
    assert!(constructive_predecessors(parent).is_empty());
}

#[test]
fn replay_returns_every_position_and_refuses_bad_actions() {
    let config = BoardConfig::new(4, 8).unwrap();
    let actions = [Action::Place { to: 5 }, Action::Place { to: 6 }];
    let (states, last) = replay(&actions, config).unwrap();
    assert_eq!(states.len(), 3);
    assert_eq!(states[2].ply, 2);
    assert_eq!(last, None);
    let illegal = [Action::Place { to: 5 }, Action::Place { to: 5 }];
    assert_eq!(
        replay(&illegal, config).unwrap_err(),
        "illegal action P5 at ply 1"
    );
    let relocation = [Action::Relocate { from: 1, to: 12 }];
    assert_eq!(
        replay(&relocation, config).unwrap_err(),
        "illegal action R1>12 at ply 0"
    );
}

#[test]
fn action_notation_reads_back() {
    for action in [Action::Place { to: 0 }, Action::Place { to: 63 }, Action::Relocate { from: 9, to: 48 }] {
        let text = action.notation();
        assert_eq!(pathagon_engine::parse_action(&text), Ok(action));
    }
    assert_eq!(Action::Relocate { from: 10, to: 3 }.notation(), "R10>3");
}

#[test]
fn ring2_candidates_come_from_the_last_two_moves_of_a_won_game() {
    let config = BoardConfig::default();
    let squares = [0u8, 6, 7, 13, 14, 20, 21, 27, 28, 34, 35, 41, 42];
    let actions: Vec<Action> = squares.iter().map(|&to| Action::Place { to }).collect();
    let candidate = pathagon_engine::frontier::ring2_candidate(&actions, config)
        .unwrap()
        .expect("the game ends with a win");
    assert_eq!(candidate.parent.ply, 11);
    assert_eq!(candidate.witness, Action::Place { to: 41 });
    assert_eq!(candidate.key, pathagon_engine::golden::canonical_position_key(candidate.parent));
    let legal = candidate.parent.legal_actions();
    assert_eq!(candidate.edges.len(), legal.len());
    for (edge, action) in candidate.edges.iter().zip(legal.iter()) {
        assert_eq!(edge.0, *action);
        let child = candidate.parent.apply_legal(*action).state;
        assert_eq!(edge.1, pathagon_engine::golden::canonical_position_key(child));
    }
    let child = candidate.parent.apply_legal(Action::Place { to: 41 }).state;
    assert_eq!(candidate.child_key, pathagon_engine::golden::canonical_position_key(child));
    assert!(pathagon_engine::frontier::ring2_candidate(&actions[..12], config).unwrap().is_none());
    assert!(pathagon_engine::frontier::ring2_candidate(&actions, BoardConfig::new(5, 8).unwrap()).unwrap().is_none());
    let illegal = vec![Action::Place { to: 0 }, Action::Place { to: 0 }];
    assert!(pathagon_engine::frontier::ring2_candidate(&illegal, config).is_err());
}
