use pathagon_engine::contract::{
    AgentManifest, AgentSpecification, AgentSpecifications, ContractAction, ContractMove,
    ContractPlayer, EngineMetadata, EvaluatorWeights, GameConfig, PlayerAgents, PlayerNumbers,
    PlayerSquares, Position, ReplayRecord, CONTRACT_VERSION, RULES_VERSION,
};

fn config() -> GameConfig {
    GameConfig {
        rules_version: RULES_VERSION.to_owned(),
        board_size: 3,
        reserve_per_player: 2,
        max_plies: 30,
        repetition_limit: 3,
    }
}

fn position() -> Position {
    Position {
        contract_version: CONTRACT_VERSION,
        config: config(),
        board: vec![None; 9],
        reserve: PlayerNumbers { light: 2, dark: 2 },
        turn: ContractPlayer::Light,
        forbidden: Vec::new(),
        last_relocated_to: PlayerSquares {
            light: None,
            dark: None,
        },
        winner: None,
        ply: 0,
    }
}

#[test]
fn game_config_and_action_validation_cover_bounds() {
    let mut invalid = config();
    invalid.rules_version = "other-rules".to_owned();
    assert_eq!(invalid.validate().unwrap_err(), "unsupported rules version");
    invalid = config();
    invalid.board_size = 2;
    assert!(invalid.validate().is_err());
    invalid.board_size = 9;
    assert!(invalid.validate().is_err());
    invalid = config();
    invalid.reserve_per_player = 0;
    assert!(invalid.validate().is_err());
    invalid.reserve_per_player = 65;
    assert!(invalid.validate().is_err());
    invalid = config();
    invalid.max_plies = 0;
    assert!(invalid.validate().is_err());
    invalid.max_plies = 4097;
    assert!(invalid.validate().is_err());
    invalid = config();
    invalid.repetition_limit = 2;
    assert!(invalid.validate().is_err());

    assert!(ContractAction::Place { to: 8 }.validate(9).is_ok());
    assert!(ContractAction::Place { to: 9 }.validate(9).is_err());
    assert!(ContractAction::Relocate { from: 0, to: 8 }
        .validate(9)
        .is_ok());
    assert!(ContractAction::Relocate { from: 9, to: 0 }
        .validate(9)
        .is_err());
    assert!(ContractAction::Relocate { from: 0, to: 9 }
        .validate(9)
        .is_err());
}

#[test]
fn position_validation_rejects_each_boundary_invariant() {
    let mut invalid = position();
    invalid.contract_version = 2;
    assert!(invalid.validate().is_err());

    invalid = position();
    invalid.board.pop();
    assert!(invalid.validate().is_err());
    invalid = position();
    invalid.config.rules_version = "bad".to_owned();
    assert!(invalid.validate().is_err());
    invalid = position();
    invalid.forbidden = vec![0, 0];
    assert!(invalid.validate().is_err());
    invalid.forbidden = vec![9];
    assert!(invalid.validate().is_err());
    invalid = position();
    invalid.last_relocated_to.light = Some(9);
    assert!(invalid.validate().is_err());
    invalid = position();
    invalid.ply = invalid.config.max_plies + 1;
    assert!(invalid.validate().is_err());

    let valid = position();
    assert!(valid.validate().is_ok());
}

fn metadata() -> EngineMetadata {
    EngineMetadata {
        id: "rust-bitboard".to_owned(),
        runtime: "rust".to_owned(),
        version: "1.0.0".to_owned(),
        rules_version: RULES_VERSION.to_owned(),
    }
}

fn manifest() -> AgentManifest {
    AgentManifest {
        manifest_version: 1,
        runtime: "rust".to_owned(),
        rules_version: RULES_VERSION.to_owned(),
        evaluator_weights: EvaluatorWeights {
            path: 1,
            material: 2,
            capture: 3,
            structure: 4,
            threat: 5,
            edge: 6,
        },
        depth: 4,
        node_budget: 256_000,
        beam: 150,
        model_hash: None,
    }
}

fn specification(id: &str) -> AgentSpecification {
    AgentSpecification {
        id: id.to_owned(),
        name: format!("{id} agent"),
        version: "1.0.0".to_owned(),
        kind: "search".to_owned(),
        engine_id: "rust-bitboard".to_owned(),
        manifest: manifest(),
    }
}

fn replay() -> ReplayRecord {
    ReplayRecord {
        contract_version: CONTRACT_VERSION,
        seed: 7,
        config: config(),
        engine: metadata(),
        agents: PlayerAgents {
            light: "light".to_owned(),
            dark: "dark".to_owned(),
        },
        agent_specifications: AgentSpecifications {
            light: specification("light"),
            dark: specification("dark"),
        },
        initial_position: None,
        winner: None,
        result: "draw".to_owned(),
        reason: "max-plies".to_owned(),
        plies: 0,
        moves: Vec::new(),
    }
}

fn movement(action: ContractAction) -> ContractMove {
    ContractMove {
        ply: 1,
        player: ContractPlayer::Light,
        action,
        captured: Vec::new(),
        nodes: 10,
        completed_depth: 2,
        table_hits: 1,
        score: Some(3),
        book_hit: Some(false),
    }
}

#[test]
fn metadata_agent_and_manifest_validation_rejects_bad_values() {
    let mut invalid = metadata();
    invalid.id.clear();
    assert!(invalid.validate().is_err());
    invalid = metadata();
    invalid.version.clear();
    assert!(invalid.validate().is_err());
    invalid = metadata();
    invalid.runtime = "go".to_owned();
    assert!(invalid.validate().is_err());
    invalid = metadata();
    invalid.rules_version = "bad".to_owned();
    assert!(invalid.validate().is_err());
    invalid = metadata();
    invalid.id = "x".repeat(129);
    assert!(invalid.validate().is_err());
    invalid = metadata();
    invalid.version = "x".repeat(33);
    assert!(invalid.validate().is_err());

    let mut agent = specification("agent");
    assert!(agent.validate().is_ok());
    agent.id.clear();
    assert!(agent.validate().is_err());
    agent = specification("agent");
    agent.name.clear();
    assert!(agent.validate().is_err());
    agent = specification("agent");
    agent.version.clear();
    assert!(agent.validate().is_err());
    agent = specification("agent");
    agent.engine_id.clear();
    assert!(agent.validate().is_err());
    agent = specification("agent");
    agent.kind = "random".to_owned();
    assert!(agent.validate().is_ok());
    agent.kind = "invalid".to_owned();
    assert!(agent.validate().is_err());

    let mut agent_manifest = manifest();
    agent_manifest.manifest_version = 2;
    assert!(agent_manifest.validate().is_err());
    agent_manifest = manifest();
    agent_manifest.runtime = "go".to_owned();
    assert!(agent_manifest.validate().is_err());
    agent_manifest = manifest();
    agent_manifest.rules_version = "bad".to_owned();
    assert!(agent_manifest.validate().is_err());
    agent_manifest = manifest();
    agent_manifest.model_hash = Some("sha256:bad".to_owned());
    assert!(agent_manifest.validate().is_err());
    agent_manifest.model_hash = Some(format!("sha256:{}", "a".repeat(64)));
    assert!(agent_manifest.validate().is_ok());
    agent_manifest.model_hash = Some("a".repeat(64));
    assert!(agent_manifest.validate().is_err());
}

#[test]
fn agent_specification_errors_name_the_failed_check() {
    let mut missing = specification("agent");
    missing.engine_id = String::new();
    assert_eq!(missing.validate().unwrap_err(), "invalid agent specification fields");
    let mut kind = specification("agent");
    kind.kind = "oracle".to_owned();
    assert_eq!(kind.validate().unwrap_err(), "invalid agent kind");
    let mut manifest = specification("agent");
    manifest.manifest.runtime = "java".to_owned();
    assert_eq!(manifest.validate().unwrap_err(), "invalid agent manifest metadata");
}

fn validate(record: &ReplayRecord) -> Result<(), String> {
    record.validate_header()?;
    for index in 0..record.moves.len() {
        record.validate_move(index)?;
    }
    Ok(())
}

#[test]
fn replay_headers_and_moves_are_validated() {
    let mut invalid = replay();
    invalid.contract_version = 2;
    assert_eq!(validate(&invalid).unwrap_err(), "unsupported replay contract version");
    invalid = replay();
    invalid.seed = u32::MAX as u64 + 1;
    assert_eq!(validate(&invalid).unwrap_err(), "seed outside u32");
    invalid = replay();
    invalid.initial_position = Some(position());
    invalid.initial_position.as_mut().unwrap().config.board_size = 4;
    assert!(validate(&invalid).is_err());
    invalid = replay();
    invalid.initial_position = Some(position());
    invalid.initial_position.as_mut().unwrap().winner = Some(ContractPlayer::Light);
    assert_eq!(validate(&invalid).unwrap_err(), "initial position must be non-terminal");
    invalid = replay();
    invalid.engine.runtime = "go".to_owned();
    assert!(validate(&invalid).is_err());
    invalid = replay();
    invalid.agents.light = "wrong".to_owned();
    assert_eq!(validate(&invalid).unwrap_err(), "agent ID does not match specification");
    invalid = replay();
    invalid.winner = Some(ContractPlayer::Light);
    assert_eq!(validate(&invalid).unwrap_err(), "result does not match winner");
    invalid = replay();
    invalid.reason = "unknown".to_owned();
    assert_eq!(validate(&invalid).unwrap_err(), "invalid termination reason");
    invalid = replay();
    invalid.plies = 1;
    assert_eq!(validate(&invalid).unwrap_err(), "replay plies do not match moves");

    let mut valid = replay();
    valid.moves = vec![movement(ContractAction::Place { to: 0 })];
    valid.plies = 1;
    valid.winner = Some(ContractPlayer::Light);
    valid.result = "win".to_owned();
    assert!(validate(&valid).is_ok());

    let mut bad_move = valid.clone();
    bad_move.moves[0].ply = 2;
    assert_eq!(validate(&bad_move).unwrap_err(), "move ply is not sequential");
    bad_move = valid.clone();
    bad_move.moves[0].action = ContractAction::Place { to: 9 };
    assert_eq!(validate(&bad_move).unwrap_err(), "action square outside configured board");
    bad_move = valid.clone();
    bad_move.moves[0].captured = vec![0, 0];
    assert_eq!(validate(&bad_move).unwrap_err(), "invalid captured square");
}
