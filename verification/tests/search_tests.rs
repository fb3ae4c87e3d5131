use pathagon_engine::bit_squares;
use pathagon_engine::geometry::neighbor_mask_for;
use pathagon_engine::search::{
    analyze_action, analyze_actions, connection_distance, evaluate, has_tactical_signal,
    immediate_winning_actions, lunatic_action, ordered_actions, ordered_root_actions_with_tactical_guard,
    root_ordered_actions, search_best_action, search_best_action_with_deadline,
    search_best_action_with_root_order, search_best_action_with_root_order_and_options,
    search_best_action_with_root_order_and_root_limit,
    search_best_action_with_root_order_and_root_limit_deadline, search_best_action_with_root_probe,
    search_best_action_with_tactical_filter, search_best_action_with_tactical_filter_deadline,
    search_best_action_with_tactical_guard, search_best_action_with_tt_order,
    tactical_root_safe_actions, EvaluationWeights, SearchConfig, NEG_INF, POS_INF,
    can_search, can_search_tactically, independent_rankings, markers_fit,
    search_best_action_with_golden,
};
use pathagon_engine::{Action, BoardConfig, GameState, Player, MAX_BOARD_SIZE, MIN_BOARD_SIZE};
use pathagon_engine::golden_table::{MemoryGoldenLookup, MemoryGoldenTable};
use std::collections::{HashSet, VecDeque};

fn exhaustive_beam_score(state: GameState, root_player: Player, depth: u8, config: SearchConfig) -> i32 {
    if state.winner.is_some() || depth == 0 {
        return evaluate(state, root_player, config.weights);
    }
    let actions = ordered_actions(state, root_player, config.weights);
    if actions.is_empty() {
        return evaluate(state, root_player, config.weights);
    }
    let maximizing = state.turn == root_player;
    let mut best = if maximizing { NEG_INF } else { POS_INF };
    for action in actions.into_iter().take(config.beam_width) {
        let score = exhaustive_beam_score(state.apply_legal(action).state, root_player, depth - 1, config);
        if maximizing {
            best = best.max(score);
        } else {
            best = best.min(score);
        }
    }
    if best == NEG_INF || best == POS_INF {
        evaluate(state, root_player, config.weights)
    } else {
        best
    }
}

fn exhaustive_beam_best_action(state: GameState, config: SearchConfig) -> (Action, i32) {
    let root_player = state.turn;
    let actions = ordered_actions(state, root_player, config.weights);
    let mut best_action = actions[0];
    let mut best_score = NEG_INF;
    for action in actions {
        let score = exhaustive_beam_score(
            state.apply_legal(action).state,
            root_player,
            config.depth.saturating_sub(1),
            config,
        );
        if score > best_score || (score == best_score && action.order() < best_action.order()) {
            best_action = action;
            best_score = score;
        }
    }
    (best_action, best_score)
}

fn exhaustive_root_order_best_action(state: GameState, config: SearchConfig, root_order: &[Action]) -> (Action, i32) {
    let root_player = state.turn;
    let actions = root_ordered_actions(state, root_player, config.weights, root_order);
    let mut best_action = actions[0];
    let mut best_score = NEG_INF;
    for action in actions {
        let score = exhaustive_beam_score(
            state.apply_legal(action).state,
            root_player,
            config.depth.saturating_sub(1),
            config,
        );
        if score > best_score || (score == best_score && action.order() < best_action.order()) {
            best_action = action;
            best_score = score;
        }
    }
    (best_action, best_score)
}

fn next_test_seed(seed: &mut u64) -> u64 {
    *seed = seed
        .wrapping_mul(6_364_136_223_846_793_005)
        .wrapping_add(1_442_695_040_888_963_407);
    *seed
}

fn sampled_nonterminal_position(board_size: u8, seed: u64, target_plies: usize) -> GameState {
    for attempt in 0..256_u64 {
        let mut state = GameState::with_board_size(board_size);
        let mut cursor = seed.wrapping_add(attempt);
        for _ in 0..target_plies {
            if state.winner.is_some() {
                break;
            }
            let actions = state.legal_actions();
            if actions.is_empty() {
                break;
            }
            let action = actions[(next_test_seed(&mut cursor) as usize) % actions.len()];
            state = state.apply_legal(action).state;
        }
        if state.winner.is_none() && !state.legal_actions().is_empty() {
            return state;
        }
    }
    panic!("could not sample a non-terminal {board_size}x{board_size} position after {target_plies} plies");
}

fn search_test_weights(index: usize) -> EvaluationWeights {
    match index % 4 {
        0 => EvaluationWeights::default(),
        1 => EvaluationWeights {
            path: 241,
            material: 112,
            capture: 887,
            structure: 40,
            threat: 154,
            edge: 74,
        },
        2 => EvaluationWeights {
            path: 1,
            material: 1,
            capture: 1,
            structure: 1,
            threat: 1,
            edge: 1,
        },
        _ => EvaluationWeights {
            path: -240,
            material: 0,
            capture: 1_100,
            structure: -55,
            threat: 260,
            edge: 0,
        },
    }
}

fn config_with(depth: u8, max_nodes: u64, beam_width: usize) -> SearchConfig {
    SearchConfig {
        depth,
        max_nodes,
        beam_width,
        ..SearchConfig::default()
    }
}

fn assert_search_matches_reference(state: GameState, config: SearchConfig, context: &str) {
    let (expected_action, expected_score) = exhaustive_beam_best_action(state, config);
    let actual = search_best_action(state, config);
    assert!(!actual.exhausted, "{context}: search exhausted its test budget");
    assert_eq!(actual.completed_depth, config.depth, "{context}: incomplete depth");
    assert_eq!(actual.action, Some(expected_action), "{context}: action mismatch");
    assert_eq!(actual.score, expected_score, "{context}: score mismatch");
    assert!(
        actual.action.is_some_and(|action| state.legal_actions().contains(&action)),
        "{context}: search returned an illegal action"
    );
}

fn reference_connection_distance(state: GameState, player: Player) -> i32 {
    let opponent = player.other();
    let board_size = state.config.board_size;
    let cell_count = state.config.cells();
    let mut distance = vec![u8::MAX; cell_count as usize];
    let mut queue = VecDeque::new();
    for index in 0..board_size {
        let square = if player == Player::Light {
            (board_size - 1) * board_size + index
        } else {
            index * board_size
        };
        if state.board_at(square) == Some(opponent) {
            continue;
        }
        let cost = u8::from(state.board_at(square) != Some(player));
        distance[square as usize] = cost;
        if cost == 0 {
            queue.push_front(square);
        } else {
            queue.push_back(square);
        }
    }
    while let Some(square) = queue.pop_front() {
        let row = square / board_size;
        let column = square % board_size;
        if (player == Player::Light && row == 0) || (player == Player::Dark && column == board_size - 1) {
            return distance[square as usize] as i32;
        }
        for next in bit_squares(neighbor_mask_for(board_size, square)) {
            if state.board_at(next) == Some(opponent) {
                continue;
            }
            let step = u8::from(state.board_at(next) != Some(player));
            let next_distance = distance[square as usize].saturating_add(step);
            if next_distance >= distance[next as usize] {
                continue;
            }
            distance[next as usize] = next_distance;
            if step == 0 {
                queue.push_front(next);
            } else {
                queue.push_back(next);
            }
        }
    }
    cell_count as i32
}

fn bits(squares: &[u8]) -> u64 {
    squares.iter().fold(0_u64, |mask, square| mask | (1_u64 << square))
}

fn crowded_opening() -> GameState {
    GameState {
        config: BoardConfig::default(),
        light: bits(&[0, 2, 4, 6, 8, 10, 12, 14, 16, 18, 20, 22, 24, 26]),
        dark: bits(&[28, 30, 32, 34, 36, 38, 40, 42, 44, 46, 48, 29, 31, 33]),
        reserve: [0, 0],
        turn: Player::Light,
        forbidden: 0,
        last_relocated_to: [None, None],
        last_capture: 0,
        last_player: None,
        winner: None,
        ply: 40,
    }
}

fn forced_block_fixture() -> GameState {
    let config = BoardConfig::new(4, 5)
        .expect("valid board config")
        .with_max_plies(64)
        .expect("valid ply limit");
    GameState {
        config,
        light: bits(&[5, 7, 9, 11, 15]),
        dark: bits(&[1, 2, 3, 6, 10]),
        reserve: [0, 0],
        turn: Player::Light,
        forbidden: 0,
        last_relocated_to: [None, None],
        last_capture: 0,
        last_player: None,
        winner: None,
        ply: 20,
    }
}

#[test]
fn allocation_free_connection_distance_matches_reference_search() {
    for board_size in MIN_BOARD_SIZE..=MAX_BOARD_SIZE {
        let mut state = GameState::with_board_size(board_size);
        let mut seed = u32::from(board_size).wrapping_mul(0x243f_6a88);
        for _ in 0..96 {
            for player in [Player::Light, Player::Dark] {
                assert_eq!(
                    connection_distance(state, player),
                    reference_connection_distance(state, player),
                    "connection distance mismatch on {board_size}x{board_size} for {}",
                    player.as_str()
                );
            }
            let actions = state.legal_actions();
            let Some(action) = actions.get((seed as usize) % actions.len().max(1)).copied() else {
                break;
            };
            seed = seed.wrapping_mul(1_664_525).wrapping_add(1_013_904_223);
            state = state.apply_legal(action).state;
            if state.winner.is_some() {
                break;
            }
        }
    }
}

#[test]
fn iterative_search_respects_budget() {
    let result = search_best_action(GameState::new(), config_with(5, 120, 49));
    assert!(result.action.is_some());
    assert!(result.nodes <= 120);
    assert!(result.exhausted);
    assert!((1..5).contains(&result.completed_depth));
}

#[test]
fn alpha_beta_matches_exhaustive_beam_reference_on_small_positions() {
    let profiles = [(2_u8, 2_usize), (3, 2), (3, 4), (4, 8)];
    for (profile_index, (depth, beam_width)) in profiles.into_iter().enumerate() {
        let config = config_with(depth, 200_000, beam_width);
        let mut state = GameState::with_board_size(3);
        let mut seed = 0x9e37_79b9_u32.wrapping_add(profile_index as u32);
        for position_index in 0..16 {
            if state.legal_actions().is_empty() {
                state = GameState::with_board_size(3);
                continue;
            }
            let (expected_action, expected_score) = exhaustive_beam_best_action(state, config);
            let actual = search_best_action(state, config);
            assert!(!actual.exhausted);
            assert_eq!(actual.completed_depth, depth);
            assert_eq!(actual.action, Some(expected_action));
            assert_eq!(actual.score, expected_score);

            let actions = state.legal_actions();
            let action = actions[(seed as usize) % actions.len()];
            seed = seed
                .wrapping_mul(1_664_525)
                .wrapping_add(1_013_904_223)
                .wrapping_add(position_index);
            state = state.apply_legal(action).state;
            if state.winner.is_some() {
                state = GameState::with_board_size(3);
            }
        }
    }
}

#[test]
fn alpha_beta_matches_reference_across_reachable_position_matrix() {
    let profiles = [
        (1_u8, 1_usize),
        (1, 4),
        (2, 1),
        (2, 4),
        (3, 2),
        (3, 8),
        (4, 2),
        (4, 8),
        (5, 1),
        (5, 4),
        (5, 8),
    ];
    let samples = [
        (3_u8, 0_usize),
        (3, 1),
        (3, 2),
        (3, 4),
        (3, 6),
        (3, 8),
        (3, 10),
        (3, 12),
        (4, 0),
        (4, 2),
        (4, 5),
        (4, 8),
        (4, 12),
        (4, 16),
        (5, 0),
        (5, 3),
        (5, 6),
        (5, 10),
    ];
    for (position_index, (board_size, target_plies)) in samples.into_iter().enumerate() {
        let state = sampled_nonterminal_position(
            board_size,
            0x9e37_79b9_7f4a_7c15_u64.wrapping_add(position_index as u64 * 97),
            target_plies,
        );
        for (profile_index, (depth, beam_width)) in profiles.into_iter().enumerate() {
            let config = SearchConfig {
                depth,
                max_nodes: 5_000_000,
                beam_width,
                weights: search_test_weights(position_index + profile_index),
                ..SearchConfig::default()
            };
            let context = format!(
                "matrix position={position_index} board={board_size} plies={target_plies} profile={depth}/{beam_width}"
            );
            assert_search_matches_reference(state, config, &context);
        }
    }
}

#[test]
fn root_ordering_cannot_change_a_completed_search_result() {
    for position_index in 0..16_usize {
        let state = sampled_nonterminal_position(
            3,
            0xa5a5_5a5a_1234_5678_u64.wrapping_add(position_index as u64 * 131),
            [0_usize, 1, 3, 5, 7, 9, 11, 13][position_index % 8],
        );
        let config = SearchConfig {
            depth: 4,
            max_nodes: 2_000_000,
            beam_width: 8,
            weights: search_test_weights(position_index),
            ..SearchConfig::default()
        };
        let legal = state.legal_actions();
        let reversed = legal.iter().rev().copied().collect::<Vec<_>>();
        let mut rotated = legal.clone();
        let rotation = position_index % rotated.len();
        rotated.rotate_left(rotation);
        let mut noisy = reversed.clone();
        noisy.push(reversed[0]);
        noisy.push(Action::Place { to: 63 });

        for (order_index, root_order) in [&reversed[..], &rotated[..], &noisy[..]].into_iter().enumerate() {
            let expected = exhaustive_root_order_best_action(state, config, root_order);
            let actual = search_best_action_with_root_order(state, config, root_order);
            assert!(!actual.exhausted, "position={position_index} order={order_index}");
            assert_eq!(actual.completed_depth, config.depth);
            assert_eq!(
                (actual.action, actual.score),
                (Some(expected.0), expected.1),
                "root order changed result at position={position_index} order={order_index}"
            );
        }
    }
}

#[test]
fn tt_move_ordering_matches_the_exhaustive_value_when_the_beam_is_complete() {
    for position_index in 0..16_usize {
        let state = sampled_nonterminal_position(
            3,
            0x0123_4567_89ab_cdef_u64.wrapping_add(position_index as u64 * 173),
            [0_usize, 2, 4, 6, 8, 10, 12, 12][position_index % 8],
        );
        let config = SearchConfig {
            depth: 5,
            max_nodes: 5_000_000,
            beam_width: 64,
            weights: search_test_weights(position_index + 1),
            ..SearchConfig::default()
        };
        let expected = exhaustive_beam_best_action(state, config);
        let actual = search_best_action_with_tt_order(state, config);
        assert!(!actual.exhausted, "TT search exhausted at position={position_index}");
        assert_eq!(actual.completed_depth, config.depth);
        assert_eq!(
            (actual.action, actual.score),
            (Some(expected.0), expected.1),
            "TT move ordering changed the completed result at position={position_index}"
        );
    }
}

#[test]
fn bounded_search_respects_budget_and_keeps_results_inside_search_bounds() {
    let states = [
        sampled_nonterminal_position(3, 0x1111_2222_3333_4444, 6),
        sampled_nonterminal_position(4, 0x5555_6666_7777_8888, 9),
        sampled_nonterminal_position(5, 0x9999_aaaa_bbbb_cccc, 12),
    ];
    for (state_index, state) in states.into_iter().enumerate() {
        for depth in [1_u8, 3, 5] {
            for beam_width in [0_usize, 1, 2, 8, 64] {
                for max_nodes in [0_u64, 1, 2, 7, 31, 120, 512, 2_000] {
                    let config = SearchConfig {
                        depth,
                        max_nodes,
                        beam_width,
                        weights: search_test_weights(state_index + depth as usize),
                        ..SearchConfig::default()
                    };
                    let result = search_best_action(state, config);
                    assert!(result.nodes <= max_nodes);
                    assert!(result.completed_depth <= depth);
                    assert!(result.score > NEG_INF && result.score < POS_INF);
                    assert!(result.action.is_some_and(|action| state.legal_actions().contains(&action)));
                }
            }
        }
    }
}

#[test]
fn analyze_actions_returns_a_sorted_unique_legal_prefix() {
    for position_index in 0..12_usize {
        let state = sampled_nonterminal_position(
            4,
            0xdead_beef_cafe_babe_u64.wrapping_add(position_index as u64 * 211),
            [0_usize, 1, 3, 5, 7, 9][position_index % 6],
        );
        let config = SearchConfig {
            depth: 3,
            max_nodes: 2_000_000,
            beam_width: 8,
            weights: search_test_weights(position_index + 2),
            ..SearchConfig::default()
        };
        let legal = state.legal_actions();
        for requested in [0_usize, 1, 3, legal.len(), legal.len() + 5] {
            let analyses = analyze_actions(state, config, requested);
            assert_eq!(analyses.len(), requested.min(legal.len()));
            assert!(analyses.iter().all(|item| legal.contains(&item.action)));
            let unique = analyses.iter().map(|item| item.action).collect::<HashSet<_>>();
            assert_eq!(unique.len(), analyses.len());
            assert!(analyses.windows(2).all(|pair| {
                pair[0].score > pair[1].score
                    || (pair[0].score == pair[1].score && pair[0].action.order() < pair[1].action.order())
            }));
            assert!(analyses.iter().all(|item| item.score > NEG_INF && item.score < POS_INF));
        }
    }
}

#[test]
fn completed_search_never_exposes_internal_bound_as_a_score() {
    let mut state = GameState::new();
    for to in [44_u8, 9, 10, 2, 3, 8, 17, 11, 7, 10, 13, 6, 20, 5, 1, 15, 14, 0, 16, 2, 4, 18] {
        let action = Action::Place { to };
        assert!(state.legal_actions().contains(&action));
        state = state.apply_legal(action).state;
    }
    let result = search_best_action(state, config_with(5, 2_000, 8));
    assert_ne!(result.score, NEG_INF);
    assert_ne!(result.score, POS_INF);
}

#[test]
fn root_probe_respects_the_shared_budget() {
    let state = GameState::new();
    let result = search_best_action_with_root_probe(state, config_with(4, 120, 8), 2, 24, 8);
    assert!(result.action.is_some());
    assert!(result.action.is_some_and(|action| state.legal_actions().contains(&action)));
    assert!(result.nodes <= 120);
}

#[test]
fn tt_order_preserves_the_full_root_set() {
    let state = GameState::new();
    let result = search_best_action_with_tt_order(state, config_with(3, 120, 8));
    assert!(result.action.is_some());
    assert!(result.action.is_some_and(|action| state.legal_actions().contains(&action)));
    assert!(result.nodes <= 120);
}

#[test]
fn tactical_guard_preserves_the_full_root_set() {
    let state = GameState::new();
    let result = search_best_action_with_tactical_guard(state, config_with(3, 120, 8));
    assert!(result.action.is_some());
    assert!(result.action.is_some_and(|action| state.legal_actions().contains(&action)));
    assert!(result.nodes <= 120);
}

#[test]
fn tactical_filter_keeps_a_legal_safe_root_or_falls_back() {
    let state = GameState::new();
    let result = search_best_action_with_tactical_filter(state, config_with(3, 120, 8));
    assert!(result.action.is_some());
    assert!(result.action.is_some_and(|action| state.legal_actions().contains(&action)));
    assert!(result.nodes <= 120);
}

#[test]
fn deadline_returns_a_legal_last_completed_move() {
    let state = crowded_opening();
    let result = search_best_action_with_tactical_filter_deadline(state, config_with(8, 1_500_000, 48), 1);
    assert!(result.exhausted);
    assert!(result.action.is_some_and(|action| state.legal_actions().contains(&action)));
    assert!(result.completed_depth <= 8);
    assert!(result.nodes <= 1_500_000);
}

#[test]
fn ordinary_deadline_returns_a_legal_last_completed_move() {
    let state = crowded_opening();
    let result = search_best_action_with_deadline(state, config_with(8, 1_500_000, 48), 1);
    assert!(result.exhausted);
    assert!(result.action.is_some_and(|action| state.legal_actions().contains(&action)));
    assert!(result.completed_depth <= 8);
    assert!(result.nodes <= 1_500_000);
}

#[test]
fn tactical_filter_keeps_the_forced_block_fixture() {
    let state = forced_block_fixture();
    let result = search_best_action_with_tactical_filter(state, config_with(3, 10_000, 8));
    assert!([
        Action::Relocate { from: 5, to: 0 },
        Action::Relocate { from: 7, to: 0 },
        Action::Relocate { from: 9, to: 0 },
        Action::Relocate { from: 11, to: 0 },
        Action::Relocate { from: 15, to: 0 },
    ]
    .contains(&result.action.expect("filter returns an action")));
}

#[test]
fn external_root_order_is_respected_under_a_tiny_budget() {
    let state = GameState::new();
    let preferred = state
        .legal_actions()
        .last()
        .copied()
        .expect("opening position has legal actions");
    let result = search_best_action_with_root_order(state, config_with(1, 1, 1), &[preferred]);
    assert_eq!(result.action, Some(preferred));
    assert_eq!(result.nodes, 1);
    assert!(result.exhausted);
}

#[test]
fn root_candidate_limit_restricts_hybrid_search_to_sorted_pool() {
    let state = GameState::new();
    let preferred = state
        .legal_actions()
        .last()
        .copied()
        .expect("opening position has legal actions");
    let result = search_best_action_with_root_order_and_root_limit(
        state,
        config_with(1, 100, 8),
        &[preferred],
        false,
        Some(1),
    );
    assert_eq!(result.action, Some(preferred));
    assert!(!result.exhausted);
}

#[test]
fn tactical_root_guard_preserves_legality_and_fallback_order() {
    let state = GameState::new();
    let guarded = ordered_root_actions_with_tactical_guard(state, state.turn, EvaluationWeights::default());
    assert_eq!(guarded.len(), state.legal_actions().len());
    assert!(guarded.iter().all(|action| state.legal_actions().contains(action)));
    assert_eq!(
        guarded.iter().copied().collect::<HashSet<_>>(),
        state.legal_actions().into_iter().collect()
    );
}

#[test]
fn lunatic_returns_a_legal_action() {
    let state = GameState::new();
    let result = lunatic_action(state);
    assert!(result.action.is_some());
    assert!(state.legal_actions().contains(&result.action.unwrap()));
    assert_eq!(result.completed_depth, 1);
}

#[test]
fn boundary_search_helpers_cover_empty_terminal_and_probe_fallbacks() {
    let no_moves = GameState {
        config: BoardConfig::new(3, 4).unwrap(),
        light: (1_u64 << 0) | (1_u64 << 1) | (1_u64 << 3) | (1_u64 << 4),
        dark: (1_u64 << 2) | (1_u64 << 5) | (1_u64 << 6) | (1_u64 << 7),
        reserve: [0, 0],
        turn: Player::Light,
        forbidden: 1_u64 << 8,
        last_relocated_to: [None, None],
        last_capture: 0,
        last_player: None,
        winner: None,
        ply: 3,
    };
    let default_config = config_with(2, 64, 4);
    assert!(lunatic_action(no_moves).action.is_none());
    assert!(analyze_actions(no_moves, default_config, 4).is_empty());
    assert!(tactical_root_safe_actions(no_moves, Player::Light, default_config.weights).is_empty());
    assert!(ordered_root_actions_with_tactical_guard(no_moves, Player::Light, default_config.weights).is_empty());
    assert!(!has_tactical_signal(no_moves));
    assert!(immediate_winning_actions(no_moves, Player::Dark).is_empty());

    let state = GameState::new();
    let action = state.legal_actions()[0];
    let evaluation = analyze_action(state, action, default_config).unwrap();
    assert_eq!(evaluation.action, action);
    assert_eq!(evaluation.delta, evaluation.score - evaluation.before_score);
    assert!(analyze_action(state, Action::Place { to: 63 }, default_config).is_err());
    assert!(analyze_actions(state, default_config, 0).is_empty());
    assert!(search_best_action_with_root_probe(state, default_config, 0, 8, 2).action.is_some());
    let exhausted_probe = search_best_action_with_root_probe(
        state,
        SearchConfig {
            max_nodes: 0,
            ..default_config
        },
        2,
        8,
        2,
    );
    assert!(exhausted_probe.exhausted);
    assert_eq!(exhausted_probe.nodes, 0);
    assert!(search_best_action_with_root_order_and_options(state, default_config, &[], true)
        .action
        .is_some());
    assert!(
        search_best_action_with_root_order_and_root_limit_deadline(state, default_config, &[], false, Some(1), 0)
            .action
            .is_some()
    );

    let mut terminal = state;
    terminal.winner = Some(Player::Light);
    assert!(lunatic_action(terminal).action.is_none());
    assert!(immediate_winning_actions(terminal, Player::Light).is_empty());
}

#[test]
fn search_supports_variable_board_sizes() {
    for size in 4..=7 {
        let state = GameState::with_board_size(size);
        let result = search_best_action(state, config_with(1, 256, 64));
        assert!(result.action.is_some(), "{size}x{size} search returned no action");
        assert!(
            state.legal_actions().contains(&result.action.unwrap()),
            "{size}x{size} search returned an illegal action"
        );
    }
}

#[test]
fn a_winning_move_is_searched_first_and_chosen() {
    let state = forced_block_fixture();
    let mut dark_to_move = state;
    dark_to_move.turn = Player::Dark;
    let wins = immediate_winning_actions(dark_to_move, Player::Dark);
    let ordered = ordered_actions(dark_to_move, Player::Dark, EvaluationWeights::default());
    for (index, action) in ordered.iter().enumerate() {
        if wins.contains(action) {
            assert!(ordered[..index].iter().all(|earlier| wins.contains(earlier)));
        }
    }
    if !wins.is_empty() {
        assert!(wins.contains(&lunatic_action(dark_to_move).action.unwrap()));
    }
}

#[test]
fn evaluate_scores_decided_games_by_ply() {
    let mut state = GameState::new();
    state.ply = 12;
    state.winner = Some(Player::Light);
    assert_eq!(evaluate(state, Player::Light, EvaluationWeights::default()), 1_000_000_000 - 12);
    assert_eq!(evaluate(state, Player::Dark, EvaluationWeights::default()), -1_000_000_000 + 12);
    let opening = GameState::new();
    assert_eq!(evaluate(opening, Player::Light, EvaluationWeights::default()), 0);
}

#[test]
fn search_preconditions_are_checked_at_run_time() {
    let state = GameState::new();
    let config = SearchConfig::default();
    assert!(can_search(state, config));
    assert!(can_search_tactically(state, config));
    assert!(markers_fit(state));
    let heavy = SearchConfig {
        weights: EvaluationWeights { path: 2_000_000, ..EvaluationWeights::default() },
        ..config
    };
    assert!(!can_search(state, heavy));
    let mut crowded = state;
    crowded.reserve = [252, 14];
    assert!(!can_search(crowded, config));
    let mut late = state;
    late.ply = u16::MAX - 3;
    assert!(can_search(late, SearchConfig { depth: 2, ..config }));
    assert!(!can_search(late, SearchConfig { depth: 3, ..config }));
    let mut marked = state;
    marked.last_relocated_to = [Some(49), None];
    assert!(!markers_fit(marked));
}

#[test]
fn golden_lookup_without_a_book_falls_back_to_search() {
    let state = GameState::new();
    let config = SearchConfig { depth: 1, max_nodes: 200, beam_width: 8, ..SearchConfig::default() };
    let table = MemoryGoldenTable::from_bytes(&[], 7, 14).unwrap();
    let golden = MemoryGoldenLookup { table, actions: None };
    let result = search_best_action_with_golden(state, config, &golden);
    assert_eq!(result, search_best_action(state, config));
}

#[test]
fn independent_rankings_score_the_first_roots_best_first() {
    let state = GameState::new();
    let config = SearchConfig { depth: 2, max_nodes: 2_000, beam_width: 8, ..SearchConfig::default() };
    let ranked = independent_rankings(state, config, 5, false);
    assert_eq!(ranked.len(), 5);
    assert!(ranked.windows(2).all(|pair| pair[0].score >= pair[1].score));
    let legal = state.legal_actions();
    assert!(ranked.iter().all(|evaluation| legal.contains(&evaluation.action)));
    let safe = independent_rankings(state, config, 3, true);
    assert!(!safe.is_empty() && safe.len() <= 3);
}

#[test]
fn the_evaluation_is_zero_sum_between_the_players() {
    let weights = EvaluationWeights::default();
    let mut state = GameState::new();
    for action in [
        Action::Place { to: 24 },
        Action::Place { to: 10 },
        Action::Place { to: 31 },
        Action::Place { to: 11 },
    ] {
        state = state.apply(action).unwrap().state;
    }
    let light = evaluate(state, Player::Light, weights);
    let dark = evaluate(state, Player::Dark, weights);
    assert_eq!(light, -dark);
    let analysis = analyze_action(state, Action::Place { to: 38 }, SearchConfig::default()).unwrap();
    assert_eq!(analysis.before_score, evaluate(state, state.turn, weights));
}

#[test]
fn traces_follow_the_completed_passes_and_end_at_the_answer() {
    let state = GameState::new();
    let config = SearchConfig { depth: 2, max_nodes: 5_000, beam_width: 6, ..SearchConfig::default() };
    let (result, traces) = pathagon_engine::search::search_best_action_with_tactical_filter_deadline_trace(
        state, config, 60_000,
    );
    assert_eq!(traces.len(), result.completed_depth as usize);
    for (index, trace) in traces.iter().enumerate() {
        assert_eq!(trace.depth as usize, index + 1);
        assert!(trace.nodes <= result.nodes);
        assert!(trace
            .candidates
            .windows(2)
            .all(|pair| (-pair[0].score, pair[0].action.order()) <= (-pair[1].score, pair[1].action.order())));
    }
    if let Some(last) = traces.last() {
        assert_eq!(result.action, Some(last.candidates[0].action));
        assert_eq!(result.score, last.candidates[0].score);
    }
}

#[test]
fn root_probe_switched_off_answers_as_the_plain_search() {
    let state = GameState::new();
    let config = config_with(2, 400, 6);
    let plain = search_best_action(state, config);
    for (depth, nodes, actions) in [(0_u8, 24_u64, 4_usize), (2, 0, 4), (2, 24, 0)] {
        let probed = search_best_action_with_root_probe(state, config, depth, nodes, actions);
        assert_eq!(probed.action, plain.action);
        assert_eq!(probed.score, plain.score);
        assert_eq!(probed.nodes, plain.nodes);
        assert_eq!(probed.exhausted, plain.exhausted);
    }
}

#[test]
fn completed_searches_agree_whatever_the_root_order() {
    let state = GameState::with_config(BoardConfig::new(4, 8).unwrap());
    let config = config_with(2, 50_000, 32);
    let plain = search_best_action(state, config);
    assert!(!plain.exhausted);
    let legal = state.legal_actions();
    let mut reversed = legal.clone();
    reversed.reverse();
    let other = search_best_action_with_root_order(state, config, &reversed);
    assert!(!other.exhausted);
    assert_eq!(other.action, plain.action);
    assert_eq!(other.score, plain.score);
}
