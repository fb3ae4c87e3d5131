use pathagon_engine::search::SearchConfig;
use pathagon_engine::selfplay::{
    contextual_phase_index, play_game, Agent, MatchOptions, Mulberry32, TerminationReason,
};
use pathagon_engine::{BoardConfig, GameState, Player};

#[test]
fn contextual_phase_boundaries_match_training_labels() {
    let mut state = GameState::with_board_size(7);
    assert_eq!(contextual_phase_index(state), 0);
    state.light = (1_u64 << 0) | (1_u64 << 1) | (1_u64 << 2) | (1_u64 << 3);
    state.dark = (1_u64 << 7) | (1_u64 << 8) | (1_u64 << 9) | (1_u64 << 10);
    assert_eq!(contextual_phase_index(state), 1);
    state.reserve = [0, 0];
    assert_eq!(contextual_phase_index(state), 2);
    state.light |= (1_u64 << 4)
        | (1_u64 << 5)
        | (1_u64 << 6)
        | (1_u64 << 11)
        | (1_u64 << 12)
        | (1_u64 << 13)
        | (1_u64 << 14)
        | (1_u64 << 15)
        | (1_u64 << 16)
        | (1_u64 << 17)
        | (1_u64 << 18)
        | (1_u64 << 19);
    state.reserve = [1, 1];
    assert_eq!(contextual_phase_index(state), 3);
}

#[test]
fn mulberry_matches_javascript_reference_values() {
    let mut random = Mulberry32::new(42);
    assert_eq!(random.next_u32(), 2_581_720_956);
    assert_eq!(random.next_u32(), 1_925_393_290);
    assert_eq!(random.next_u32(), 3_661_312_704);
}

#[test]
fn choosing_scales_the_next_output_onto_the_list() {
    let mut random = Mulberry32::new(42);
    let mut copy = Mulberry32::new(42);
    let output = copy.next_u32();
    let values = [10, 20, 30];
    let expected = values[((output as u64 * 3) >> 32) as usize];
    assert_eq!(random.choose_value(&values), Some(expected));
    let empty: [u8; 0] = [];
    assert_eq!(random.choose_value(&empty), None);
}

#[test]
fn termination_reasons_and_default_options() {
    assert_eq!(TerminationReason::ThreefoldRepetition.as_str(), "threefold-repetition");
    assert_eq!(TerminationReason::NoLegalAction.as_str(), "no-legal-action");
    let options = MatchOptions::default();
    assert_eq!(options.max_plies, 180);
    assert_eq!(options.board_size, 7);
}

#[test]
fn seeded_random_games_are_reproducible() {
    let light = Agent::random("light-random");
    let dark = Agent::random("dark-random");
    let options = MatchOptions {
        seed: 42,
        max_plies: 60,
        opening_random_plies: 2,
        ..MatchOptions::default()
    };
    assert_eq!(
        play_game(&light, &dark, options),
        play_game(&light, &dark, options)
    );
}

#[test]
fn lunatic_games_are_reproducible_and_nonempty() {
    let light = Agent::lunatic("lunatic-v0.1.0");
    let dark = Agent::random("dark-random");
    let options = MatchOptions {
        seed: 4242,
        max_plies: 60,
        opening_random_plies: 2,
        ..MatchOptions::default()
    };
    let record = play_game(&light, &dark, options);
    assert!(!record.moves.is_empty());
    assert_eq!(record, play_game(&light, &dark, options));
    assert_eq!(record.moves.first().unwrap().ply, 1);
}

#[test]
fn recorded_games_replay_legally_and_end_as_reported() {
    let light = Agent::search_tactical_filter("pathfinder", SearchConfig {
        depth: 2,
        max_nodes: 2_000,
        ..SearchConfig::default()
    });
    let dark = Agent::random("coin-flip-seeded");
    let options = MatchOptions {
        seed: 7,
        max_plies: 24,
        opening_random_plies: 0,
        board_size: 4,
        reserve_per_player: 8,
    };
    let record = play_game(&light, &dark, options);
    let mut state = GameState::with_config(
        BoardConfig::new(4, 8).unwrap().with_max_plies(24).unwrap(),
    );
    for (index, entry) in record.moves.iter().enumerate() {
        assert!(state.legal_actions().contains(&entry.action));
        assert_eq!(entry.player, state.turn);
        let transition = state.apply(entry.action).unwrap();
        assert_eq!(entry.captured, transition.captured);
        assert_eq!(entry.ply as usize, index + 1);
        if entry.player == Player::Light {
            assert!(entry.nodes <= 2_000);
        } else {
            assert_eq!(entry.nodes, 1);
            assert_eq!(entry.score, 0);
        }
        state = transition.state;
    }
    assert_eq!(record.winner, state.winner);
    match record.reason {
        TerminationReason::Path => assert!(state.winner.is_some()),
        TerminationReason::MaxPlies => assert_eq!(record.moves.len(), 24),
        TerminationReason::NoLegalAction => assert!(state.legal_actions().is_empty()),
        TerminationReason::ThreefoldRepetition => assert!(record.moves.len() >= 4),
    }
    assert_eq!(record.light_agent, "pathfinder");
    assert_eq!(record.light_specification.node_budget, 2_000);
    assert_eq!(record.light_specification.kind, "search");
    assert_eq!(record.dark_specification.name, "Coin Flip");
}

#[test]
fn opening_plies_are_coin_flips_and_the_ply_limit_ends_the_game() {
    let light = Agent::random("a");
    let dark = Agent::random("b");
    let options = MatchOptions {
        seed: 1,
        max_plies: 3,
        opening_random_plies: 3,
        board_size: 5,
        reserve_per_player: 10,
    };
    let record = play_game(&light, &dark, options);
    assert_eq!(record.reason, TerminationReason::MaxPlies);
    assert_eq!(record.moves.len(), 3);
    assert!(record.moves.iter().all(|entry| entry.nodes == 1 && entry.score == 0));
    assert_eq!(record.winner, None);
}

#[test]
fn agent_specifications_report_their_parameters() {
    let config = SearchConfig::default();
    let probe = Agent::search_probe("probe", config, 2, 500, 4);
    let spec = probe.specification();
    assert_eq!(spec.root_probe, Some((2, 500, 4)));
    assert_eq!(spec.depth, 5);
    assert_eq!(spec.node_budget, 2_000);
    assert_eq!(spec.beam, 256);
    let mut phases = [config; 4];
    phases[2].weights.capture = 999;
    let contextual = Agent::contextual_with_deadline("ctx", phases, 50);
    let spec = contextual.specification();
    assert_eq!(spec.deadline_ms, Some(50));
    assert_eq!(spec.contextual_weights.unwrap()[2].capture, 999);
    assert_eq!(spec.name, "Rust Pathfinder · contextual evaluator");
    let lunatic = Agent::lunatic("lunatic").specification();
    assert_eq!(lunatic.depth, 1);
    assert_eq!(lunatic.kind, "heuristic");
    assert_eq!(Agent::random("coin").id(), "coin");
}

#[test]
fn generated_records_include_manifest_backed_agent_identity() {
    let light = Agent::search_tactical_filter(
        "pathfinder-v0.4.0-tactical-filter",
        SearchConfig::default(),
    );
    let dark = Agent::random("coin-flip-seeded");
    let record = play_game(
        &light,
        &dark,
        MatchOptions {
            seed: 7,
            max_plies: 8,
            opening_random_plies: 0,
            board_size: 4,
            reserve_per_player: 8,
        },
    );
    assert_eq!(record.light_specification.id, "pathfinder-v0.4.0-tactical-filter");
    assert_eq!(record.light_specification.kind, "search");
    assert_eq!(record.light_specification.node_budget, 2_000);
}

#[test]
fn contextual_agent_selects_phase_and_records_all_weight_vectors() {
    let weights = pathagon_engine::search::EvaluationWeights::default();
    let phase = SearchConfig {
        depth: 1,
        max_nodes: 32,
        beam_width: 2,
        weights,
        tactical_proof_horizon: None,
    };
    let agent = Agent::contextual_with_deadline("contextual-test", [phase, phase, phase, phase], 50);
    let opponent = Agent::random("contextual-random");
    let record = play_game(
        &agent,
        &opponent,
        MatchOptions {
            seed: 91,
            max_plies: 8,
            opening_random_plies: 0,
            board_size: 4,
            reserve_per_player: 8,
        },
    );
    let spec = &record.light_specification;
    assert_eq!(spec.deadline_ms, Some(50));
    let phases = spec.contextual_weights.expect("contextual parameters");
    assert_eq!(phases[0].path, 240);
    assert_eq!(phases[3].capture, 700);
}

#[test]
fn opening_moves_are_the_seeded_generator_draws() {
    let light = Agent::lunatic("lunatic-v0.1.0");
    let dark = Agent::lunatic("lunatic-v0.1.0");
    let options = MatchOptions {
        seed: 7,
        max_plies: 10,
        opening_random_plies: 3,
        ..MatchOptions::default()
    };
    let record = play_game(&light, &dark, options);
    let mut random = Mulberry32::new(7);
    let config = BoardConfig::new(options.board_size, options.reserve_per_player)
        .unwrap()
        .with_max_plies(options.max_plies)
        .unwrap();
    let mut state = GameState::with_config(config);
    for index in 0..3 {
        let legal = state.legal_actions();
        let drawn = random.choose_value(&legal).unwrap();
        assert_eq!(record.moves[index].action, drawn);
        state = state.apply_legal(drawn).state;
    }
}
