use pathagon_engine::golden::{canonical_position_key, GoldenOutcome};
use pathagon_engine::ground_truth::GroundTruthOutcome;
use pathagon_engine::ring::{hex_key, validate_ring_row};
use pathagon_engine::tablebase::{RetrogradeValue, RetrogradeValues};
use pathagon_engine::{Action, GameState};

fn sample_row() -> (GameState, String, Vec<(Action, String)>, Vec<String>) {
    let mut state = GameState::new();
    for action in [Action::Place { to: 24 }, Action::Place { to: 10 }, Action::Place { to: 31 }] {
        state = state.apply(action).unwrap().state;
    }
    let key = hex_key(&canonical_position_key(state));
    let edges: Vec<(Action, String)> = state
        .legal_actions()
        .into_iter()
        .map(|action| {
            let child = state.apply(action).unwrap().state;
            (action, hex_key(&canonical_position_key(child)))
        })
        .collect();
    let children = edges.iter().map(|(_, child)| child.clone()).collect();
    (state, key, edges, children)
}

fn all_won(edges: &[(Action, String)], distance: u16) -> RetrogradeValues {
    let mut values = RetrogradeValues::new();
    for (_, child) in edges {
        values.insert(
            child.clone(),
            RetrogradeValue { outcome: GroundTruthOutcome::Win, distance: Some(distance) },
        );
    }
    values
}

#[test]
fn hex_keys_are_lower_case_pairs() {
    assert_eq!(hex_key(&[0x00, 0x7f, 0xab]), "007fab");
    assert_eq!(hex_key(&[]), "");
}

#[test]
fn a_row_whose_children_all_win_is_a_loss_one_ply_further() {
    let (state, key, edges, children) = sample_row();
    let values = all_won(&edges, 3);
    let loss = RetrogradeValue { outcome: GroundTruthOutcome::Loss, distance: Some(4) };
    let labels = validate_ring_row(state, &key, loss, &edges, &children, &values, None).unwrap();
    assert_eq!(labels.len(), state.legal_actions().len());
    assert!(labels.iter().all(|(_, value)| *value == loss));
    assert!(validate_ring_row(state, &key, loss, &edges, &children, &values, Some(GoldenOutcome::Loss)).is_ok());
    assert_eq!(
        validate_ring_row(state, &key, loss, &edges, &children, &values, Some(GoldenOutcome::Win)).unwrap_err(),
        "position conflicts with existing golden value"
    );
    let draw = RetrogradeValue { outcome: GroundTruthOutcome::Draw, distance: None };
    assert_eq!(
        validate_ring_row(state, &key, draw, &edges, &children, &values, None).unwrap_err(),
        "solved Ring value disagrees with child minimax"
    );
}

#[test]
fn one_losing_child_makes_the_row_a_win_at_its_distance() {
    let (state, key, edges, children) = sample_row();
    let mut values = all_won(&edges, 3);
    values.insert(
        edges[5].1.clone(),
        RetrogradeValue { outcome: GroundTruthOutcome::Loss, distance: Some(2) },
    );
    let win = RetrogradeValue { outcome: GroundTruthOutcome::Win, distance: Some(3) };
    assert!(validate_ring_row(state, &key, win, &edges, &children, &values, None).is_ok());
}

#[test]
fn malformed_rows_are_refused_with_the_first_problem() {
    let (state, key, edges, children) = sample_row();
    let values = all_won(&edges, 3);
    let loss = RetrogradeValue { outcome: GroundTruthOutcome::Loss, distance: Some(4) };
    assert_eq!(
        validate_ring_row(state, "00", loss, &edges, &children, &values, None).unwrap_err(),
        "position key is not canonical"
    );
    let mut doubled = edges.clone();
    doubled.push(edges[0].clone());
    assert_eq!(
        validate_ring_row(state, &key, loss, &doubled, &children, &values, None).unwrap_err(),
        "duplicate action edge"
    );
    let short = edges[1..].to_vec();
    assert_eq!(
        validate_ring_row(state, &key, loss, &short, &children, &values, None).unwrap_err(),
        "edge graph does not cover the legal action set"
    );
    let mut extra = children.clone();
    extra.push("ff".to_owned());
    assert_eq!(
        validate_ring_row(state, &key, loss, &edges, &extra, &values, None).unwrap_err(),
        "edge graph children do not match the record"
    );
    let empty = RetrogradeValues::new();
    let first = edges.iter().min_by_key(|(action, _)| action.order()).unwrap();
    assert_eq!(
        validate_ring_row(state, &key, loss, &edges, &children, &empty, None).unwrap_err(),
        format!("child {} is not an exact inner value", first.1)
    );
}
