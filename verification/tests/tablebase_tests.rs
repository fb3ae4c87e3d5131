use pathagon_engine::ground_truth::GroundTruthOutcome;
use pathagon_engine::tablebase::{
    merge_shard, shard_values, stable_shard, RetrogradeEdge, RetrogradeGraph, RetrogradeNode,
    RetrogradeValue, RetrogradeValues,
};

fn node(key: &str, children: &[&str]) -> RetrogradeNode {
    RetrogradeNode {
        key: key.to_owned(),
        children: children.iter().map(|child| (*child).to_owned()).collect(),
        complete: true,
        terminal: None,
        seed: None,
        actions: Vec::new(),
    }
}

fn terminal_loss(key: &str) -> RetrogradeNode {
    RetrogradeNode {
        key: key.to_owned(),
        children: Vec::new(),
        complete: true,
        terminal: Some("loss".to_owned()),
        seed: None,
        actions: Vec::new(),
    }
}

#[test]
fn forced_win_distance_propagates_from_terminal_loss() {
    let mut graph = RetrogradeGraph::default();
    graph.insert(node("root", &["terminal"])).unwrap();
    graph.insert(terminal_loss("terminal")).unwrap();
    let (values, _) = graph.solve();
    assert_eq!(values.get("root").unwrap().outcome, GroundTruthOutcome::Win);
    assert_eq!(values.get("root").unwrap().distance, Some(1));
}

#[test]
fn incomplete_cycle_remains_unknown_but_closed_cycle_is_draw() {
    let mut incomplete = RetrogradeGraph::default();
    incomplete
        .insert(RetrogradeNode {
            complete: false,
            ..node("a", &["a"])
        })
        .unwrap();
    assert!(!incomplete.solve().0.contains_key("a"));

    let mut closed = RetrogradeGraph::default();
    closed.insert(node("a", &["b"])).unwrap();
    closed.insert(node("b", &["a"])).unwrap();
    assert_eq!(closed.solve().0.get("a").unwrap().outcome, GroundTruthOutcome::Draw);

    closed
        .insert(RetrogradeNode {
            complete: false,
            ..node("incomplete", &["incomplete"])
        })
        .unwrap();
    assert_eq!(closed.solve().0.get("a").unwrap().outcome, GroundTruthOutcome::Draw);
    assert!(!closed.solve().0.contains_key("incomplete"));
}

#[test]
fn contradictory_checkpoint_is_rejected() {
    let mut graph = RetrogradeGraph::default();
    graph.insert(terminal_loss("terminal")).unwrap();
    let mut seed = RetrogradeValues::new();
    seed.insert(
        "terminal".to_owned(),
        RetrogradeValue {
            outcome: GroundTruthOutcome::Win,
            distance: Some(0),
        },
    );
    assert!(graph.solve_from_seed(&seed).is_err());
}

#[test]
fn imported_inner_ring_seed_propagates_to_parent() {
    let mut graph = RetrogradeGraph::default();
    graph
        .insert(RetrogradeNode {
            key: "parent".to_owned(),
            children: vec!["inner".to_owned()],
            complete: true,
            terminal: None,
            seed: None,
            actions: vec![RetrogradeEdge {
                action: "move".to_owned(),
                child: "inner".to_owned(),
            }],
        })
        .unwrap();
    graph
        .insert(RetrogradeNode {
            key: "inner".to_owned(),
            children: Vec::new(),
            complete: false,
            terminal: None,
            seed: Some(RetrogradeValue {
                outcome: GroundTruthOutcome::Loss,
                distance: Some(1),
            }),
            actions: Vec::new(),
        })
        .unwrap();
    let (values, _) = graph.solve();
    assert_eq!(values.get("parent").unwrap().outcome, GroundTruthOutcome::Win);
    assert_eq!(values.get("parent").unwrap().distance, Some(2));
}

#[test]
fn checkpoint_values_resume_to_the_same_solution() {
    let mut graph = RetrogradeGraph::default();
    graph.insert(node("root", &["terminal"])).unwrap();
    graph.insert(terminal_loss("terminal")).unwrap();
    let (values, stats) = graph.solve();
    let (resumed, resumed_stats) = graph.solve_from_seed(&values).unwrap();
    assert_eq!(resumed.entries(), values.entries());
    assert_eq!(resumed_stats.solved, stats.solved);
    assert_eq!(stats.nodes, 2);
    assert_eq!(stats.edges, 1);
    assert_eq!(stats.unknown, 0);
}

#[test]
fn insertion_refuses_malformed_and_contradictory_nodes() {
    let mut graph = RetrogradeGraph::default();
    assert_eq!(graph.insert(node("", &[])), Err("retrograde node key cannot be empty".to_owned()));
    assert_eq!(
        graph.insert(node("a", &[""])),
        Err("retrograde node a has an empty child key".to_owned())
    );
    assert_eq!(
        graph.insert(RetrogradeNode {
            terminal: Some("maybe".to_owned()),
            ..node("a", &[])
        }),
        Err("retrograde node a has an invalid terminal outcome".to_owned())
    );
    assert_eq!(
        graph.insert(RetrogradeNode {
            actions: vec![RetrogradeEdge {
                action: "x".to_owned(),
                child: "c".to_owned(),
            }],
            ..node("a", &["b"])
        }),
        Err("retrograde node a action edges must align with children".to_owned())
    );
    assert!(graph.is_empty());
    graph.insert(node("a", &["b"])).unwrap();
    assert_eq!(
        graph.insert(node("a", &["c"])),
        Err("contradictory retrograde node a".to_owned())
    );
    assert_eq!(graph.len(), 1);
    assert!(graph.insert(node("a", &["c"])).is_ok());
}

#[test]
fn unknown_checkpoint_keys_are_named() {
    let mut graph = RetrogradeGraph::default();
    graph.insert(terminal_loss("terminal")).unwrap();
    let mut seed = RetrogradeValues::new();
    seed.insert(
        "elsewhere".to_owned(),
        RetrogradeValue {
            outcome: GroundTruthOutcome::Win,
            distance: Some(0),
        },
    );
    assert_eq!(
        graph.solve_from_seed(&seed).err(),
        Some("checkpoint contains unknown node elsewhere".to_owned())
    );
}

#[test]
fn shards_are_stable() {
    assert_eq!(stable_shard(b"", 7), (0xcbf29ce484222325_u64 % 7) as usize);
    let a = stable_shard(b"root", 2);
    assert!(a < 2);
    assert_eq!(a, stable_shard(b"root", 2));
}

fn win_in(distance: u16) -> RetrogradeValue {
    RetrogradeValue { outcome: GroundTruthOutcome::Win, distance: Some(distance) }
}

#[test]
fn value_shards_split_by_stable_hash_and_merge_back() {
    let mut values = RetrogradeValues::new();
    for (index, key) in ["a", "b", "c", "d", "e", "f", "g"].iter().enumerate() {
        values.insert((*key).to_owned(), win_in(index as u16));
    }
    let shards = shard_values(&values, 3);
    assert_eq!(shards.len(), 3);
    for (index, shard) in shards.iter().enumerate() {
        for (key, _) in shard {
            assert_eq!(stable_shard(key.as_bytes(), 3), index);
        }
    }
    assert_eq!(shards.iter().map(Vec::len).sum::<usize>(), 7);
    let mut merged = RetrogradeValues::new();
    for (index, shard) in shards.iter().enumerate() {
        merge_shard(&mut merged, index, 3, shard).unwrap();
    }
    assert_eq!(merged.entries(), values.entries());
}

#[test]
fn merging_refuses_misplaced_keys_and_contradictions() {
    let key = "position".to_owned();
    let home = stable_shard(key.as_bytes(), 4);
    let other = (home + 1) % 4;
    let mut merged = RetrogradeValues::new();
    assert_eq!(
        merge_shard(&mut merged, other, 4, &vec![(key.clone(), win_in(1))]).unwrap_err(),
        "key position is in the wrong shard"
    );
    merge_shard(&mut merged, home, 4, &vec![(key.clone(), win_in(1))]).unwrap();
    merge_shard(&mut merged, home, 4, &vec![(key.clone(), win_in(1))]).unwrap();
    assert_eq!(
        merge_shard(&mut merged, home, 4, &vec![(key.clone(), win_in(3))]).unwrap_err(),
        "contradictory merged value for key position"
    );
    assert_eq!(merged.get("position"), Some(win_in(1)));
}
