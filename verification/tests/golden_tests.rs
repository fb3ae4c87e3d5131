use pathagon_engine::golden::{
    canonical_key, canonical_position_key, decode_action, decode_canonical_position_key,
    decode_hex, decode_key_hex, inverse_symmetry, key_bytes_for_board_size, transform_action, transform_position,
    GoldenActionBook, GoldenActionValue, GoldenOutcome, GoldenRowValue, MemoryGoldenLookup,
    MemoryGoldenLookupLayers, MemoryGoldenTable, SidecarAction, SidecarRow, WIN,
};
use pathagon_engine::{Action, BoardConfig, GameState, Player};

const V1_MAGIC: &[u8; 8] = b"PGACT01\0";
const V2_MAGIC: &[u8; 8] = b"PGACT02\0";

#[test]
fn canonical_key_matches_python_codec_for_simple_position() {
    let state = GameState::with_config(BoardConfig::default());
    let (key, symmetry) = canonical_key(state);
    assert_eq!(symmetry, 0);
    assert_eq!(key.len(), 14);
    assert_eq!(
        key,
        decode_hex("0000000000000000000000008863").expect("expected key is hex")
    );
}

#[test]
fn d4_round_trip_preserves_action() {
    let config = BoardConfig::default();
    let action = Action::Relocate { from: 2, to: 35 };
    for symmetry in 0..8 {
        let transformed = transform_action(action, config.board_size, symmetry);
        let round_trip =
            transform_action(transformed, config.board_size, inverse_symmetry(symmetry));
        assert_eq!(round_trip, action, "symmetry {symmetry}");
    }
}

#[test]
fn marker_bits_and_key_size_match_persisted_formats() {
    assert_eq!(key_bytes_for_board_size(5), Ok(8));
    assert_eq!(key_bytes_for_board_size(7), Ok(14));
}

#[test]
fn canonical_key_round_trips_through_state_decoder() {
    let mut state = GameState::with_config(BoardConfig::default());
    state.light = (1_u64 << 3) | (1_u64 << 17) | (1_u64 << 31);
    state.dark = (1_u64 << 9) | (1_u64 << 40);
    state.reserve = [11, 12];
    state.turn = Player::Dark;
    state.forbidden = 1_u64 << 24;
    state.last_relocated_to = [Some(17), None];
    let key = canonical_position_key(state);
    let decoded = decode_canonical_position_key(&key, 7, 14).expect("decode canonical key");
    assert_eq!(canonical_position_key(decoded), key);
    let mut expected_reserves = state.reserve;
    expected_reserves.sort_unstable();
    let mut decoded_reserves = decoded.reserve;
    decoded_reserves.sort_unstable();
    assert_eq!(decoded_reserves, expected_reserves);
    let mut expected_counts = [state.light.count_ones(), state.dark.count_ones()];
    expected_counts.sort_unstable();
    let mut decoded_counts = [decoded.light.count_ones(), decoded.dark.count_ones()];
    decoded_counts.sort_unstable();
    assert_eq!(decoded_counts, expected_counts);
    assert_eq!(decoded.forbidden.count_ones(), state.forbidden.count_ones());
}

#[test]
fn canonical_key_decoder_rejects_reserved_bits() {
    let mut key = canonical_position_key(GameState::with_config(BoardConfig::default()));
    *key.last_mut().expect("key has bytes") |= 0x80;
    assert!(decode_canonical_position_key(&key, 7, 14).is_err());
}

#[test]
fn compact_action_book_v2_preserves_sparse_values_and_row_proof() {
    let mut source = Vec::new();
    source.extend_from_slice(V2_MAGIC);
    source.extend_from_slice(&[7, 14, 14, 0]);
    source.extend_from_slice(&1_u32.to_le_bytes());
    source.extend_from_slice(&[0; 14]);
    source.extend_from_slice(&[0, WIN]);
    source.extend_from_slice(&1_u16.to_le_bytes());
    source.extend_from_slice(&1_u16.to_le_bytes());
    source.extend_from_slice(&0_u16.to_le_bytes());
    source.push(WIN);
    source.extend_from_slice(&1_u16.to_le_bytes());

    let book = GoldenActionBook::from_bytes(&source, 7).expect("decode PGACT02");
    let key = vec![0; 14];
    assert_eq!(book.rows(), 1);
    assert_eq!(
        book.row_for_key(&key),
        Some(GoldenRowValue {
            outcome: GoldenOutcome::Win,
            distance: Some(1),
            optimal_actions_complete: false,
        })
    );
    assert_eq!(
        book.values_for_key(&key),
        Some(vec![GoldenActionValue {
            action: Action::Place { to: 0 },
            outcome: Some(GoldenOutcome::Win),
            distance: Some(1),
        }])
    );
}

#[test]
fn legacy_compact_action_book_v1_remains_readable() {
    let mut source = Vec::new();
    source.extend_from_slice(V1_MAGIC);
    source.extend_from_slice(&[7, 14, 14, 0]);
    source.extend_from_slice(&1_u32.to_le_bytes());
    source.extend_from_slice(&[0; 14]);
    source.extend_from_slice(&1_u16.to_le_bytes());
    source.extend_from_slice(&0_u16.to_le_bytes());

    let book = GoldenActionBook::from_bytes(&source, 7).expect("decode PGACT01");
    let key = vec![0; 14];
    assert_eq!(book.rows(), 1);
    assert_eq!(
        book.values_for_key(&key).expect("row has labels")[0].outcome,
        Some(GoldenOutcome::Win)
    );
}

#[test]
fn outcome_bytes_round_trip() {
    for outcome in [GoldenOutcome::Loss, GoldenOutcome::Draw, GoldenOutcome::Win] {
        assert_eq!(GoldenOutcome::from_byte(outcome.as_byte()), Some(outcome));
    }
    assert_eq!(GoldenOutcome::from_byte(3), None);
    assert_eq!(GoldenOutcome::Draw.as_str(), "draw");
}

#[test]
fn key_width_rejects_unsupported_boards() {
    assert_eq!(key_bytes_for_board_size(3), Ok(4));
    assert_eq!(key_bytes_for_board_size(4), Ok(6));
    assert_eq!(key_bytes_for_board_size(6), Ok(11));
    assert_eq!(
        key_bytes_for_board_size(8),
        Err("golden key codec supports board sizes 3 through 7".to_owned())
    );
}

#[test]
fn quarter_turn_moves_a_corner_and_swaps_colours() {
    let mut state = GameState::with_config(BoardConfig::default());
    state.light = 1;
    let turned = transform_position(state, 1);
    assert_eq!(turned.light, 0);
    assert_eq!(turned.dark, 1 << 6);
    assert_eq!(turned.turn, Player::Dark);
    let mirrored = transform_position(state, 4);
    assert_eq!(mirrored.light, 1 << 42);
    assert_eq!(mirrored.turn, Player::Light);
}

#[test]
fn decoder_reports_each_problem() {
    assert_eq!(
        decode_canonical_position_key(&[0; 13], 7, 14),
        Err("canonical key has 13 bytes, expected 14".to_owned())
    );
    assert_eq!(
        decode_canonical_position_key(&[0; 14], 9, 14),
        Err("golden key codec supports board sizes 3 through 7".to_owned())
    );
    let mut out_of_range = canonical_position_key(GameState::with_config(BoardConfig::default()));
    out_of_range[13] = 0x7f;
    assert_eq!(
        decode_canonical_position_key(&out_of_range, 7, 14),
        Err("canonical key contains an out-of-range relocation marker".to_owned())
    );
    let mut crowded = canonical_position_key(GameState::with_config(BoardConfig::default()));
    crowded[0] = 0b0101_0101;
    assert_eq!(
        decode_canonical_position_key(&crowded, 7, 3),
        Err("canonical key exceeds the fixed piece inventory".to_owned())
    );
    assert_eq!(
        decode_canonical_position_key(
            &canonical_position_key(GameState::with_config(BoardConfig::default())),
            7,
            0
        ),
        Err("reserve outside 1..64".to_owned())
    );
}

#[test]
fn action_tokens_and_hex_decode() {
    assert_eq!(decode_action("01", 7), Ok(Action::Place { to: 1 }));
    assert_eq!(decode_action("0n", 7), Ok(Action::Relocate { from: 0, to: 0 }));
    assert_eq!(
        decode_action("abc", 7),
        Err("golden action token must contain exactly two characters".to_owned())
    );
    assert_eq!(
        decode_action("0*", 7),
        Err("invalid golden action token \"0*\"".to_owned())
    );
    assert_eq!(decode_hex("0aFf"), Ok(vec![0x0a, 0xff]));
    assert_eq!(
        decode_hex("abc"),
        Err("golden key hex must have an even length".to_owned())
    );
    assert_eq!(
        decode_hex("zz"),
        Err("golden key contains a non-hex digit".to_owned())
    );
}

#[test]
fn action_book_formats_report_problems() {
    assert_eq!(
        GoldenActionBook::from_bytes(b"PGACT09\0", 7).err(),
        Some("<memory>: unsupported action-book format".to_owned())
    );
    let mut source = Vec::new();
    source.extend_from_slice(V2_MAGIC);
    source.extend_from_slice(&[6, 14, 14, 0]);
    source.extend_from_slice(&0_u32.to_le_bytes());
    assert_eq!(
        GoldenActionBook::from_bytes(&source, 7).err(),
        Some("<memory>: action-book namespace does not match 7x7/14".to_owned())
    );
    let mut truncated = Vec::new();
    truncated.extend_from_slice(V1_MAGIC);
    truncated.extend_from_slice(&[7, 14, 14, 0]);
    truncated.extend_from_slice(&1_u32.to_le_bytes());
    assert_eq!(
        GoldenActionBook::from_bytes(&truncated, 7).err(),
        Some("<memory>: truncated action-book row 0".to_owned())
    );
}

fn win_in_one_table_and_book() -> (GameState, Vec<u8>, Vec<u8>) {
    let config = BoardConfig::new(3, 4).expect("small board");
    let mut state = GameState::with_config(config);
    state.light = (1 << 0) | (1 << 3);
    state.dark = (1 << 1) | (1 << 2);
    state.reserve = [2, 2];
    let key = canonical_position_key(state);
    let (_, symmetry) = canonical_key(state);
    let winning = Action::Place { to: 6 };
    let stored = transform_action(winning, 3, symmetry);
    let mut table = key.clone();
    table.push(WIN);
    let mut book = Vec::new();
    book.extend_from_slice(V1_MAGIC);
    book.extend_from_slice(&[3, 14, 4, 0]);
    book.extend_from_slice(&1_u32.to_le_bytes());
    book.extend_from_slice(&key);
    book.extend_from_slice(&1_u16.to_le_bytes());
    let code = match stored {
        Action::Place { to } => to as u16,
        Action::Relocate { from, to } => 9 + from as u16 * 9 + to as u16,
    };
    book.extend_from_slice(&code.to_le_bytes());
    (state, table, book)
}

#[test]
fn memory_lookup_recovers_the_proven_action_in_the_callers_orientation() {
    let (state, table, book) = win_in_one_table_and_book();
    let lookup = MemoryGoldenLookup::open_bytes(&table, Some(&book), 3, 4).expect("open lookup");
    assert_eq!(lookup.lookup(state), Some(GoldenOutcome::Win));
    assert_eq!(lookup.proven_action(state), Some(Action::Place { to: 6 }));
    let memory = MemoryGoldenTable::from_bytes(&table, 3, 4).expect("table");
    assert_eq!(memory.rows(), 1);
    assert_eq!(
        MemoryGoldenTable::from_bytes(&table[..3], 3, 4).err(),
        Some("memory golden shard is not a multiple of 5 bytes".to_owned())
    );
    let layers = MemoryGoldenLookupLayers::open_bytes(
        &[(&table[..0], None), (table.as_slice(), Some(book.as_slice()))],
        3,
        4,
    )
    .expect("open layers");
    assert_eq!(layers.layer_count(), 2);
    assert_eq!(layers.rows(), 1);
    assert_eq!(layers.lookup(state), Some(GoldenOutcome::Win));
    assert_eq!(layers.proven_action(state), Some(Action::Place { to: 6 }));
    assert!(MemoryGoldenLookupLayers::open_bytes(&[], 3, 4).is_err());
}

#[test]
fn sidecar_rows_merge_labels_and_row_values() {
    let mut book = GoldenActionBook::new(7).expect("supported board");
    let key_hex = "00000000000000000000000000aa";
    let row = SidecarRow {
        line_number: 3,
        schema_version: Some(1),
        table_family: Some("fresh-frontier-wdl-v1".to_owned()),
        key: Some(key_hex.to_owned()),
        outcome: Some("win".to_owned()),
        distance: Some(1),
        optimal_actions_known: Some(true),
        proven_actions: Some(vec![SidecarAction {
            token: Some("01".to_owned()),
            outcome: Some("win".to_owned()),
            distance: Some(65537),
        }]),
    };
    book.merge_sidecar_row("book.jsonl", &row).expect("merge");
    let key = decode_hex(key_hex).expect("hex");
    assert_eq!(book.rows(), 1);
    assert_eq!(
        book.row_for_key(&key),
        Some(GoldenRowValue {
            outcome: GoldenOutcome::Win,
            distance: Some(1),
            optimal_actions_complete: true,
        })
    );
    assert_eq!(
        book.values_for_key(&key),
        Some(vec![GoldenActionValue {
            action: Action::Place { to: 1 },
            outcome: Some(GoldenOutcome::Win),
            distance: Some(1),
        }])
    );
    let bad = SidecarRow {
        schema_version: Some(2),
        ..row
    };
    assert_eq!(
        book.merge_sidecar_row("book.jsonl", &bad),
        Err("book.jsonl:3: unsupported golden action row".to_owned())
    );
}

#[test]
fn decodes_canonical_hex_keys() {
    assert_eq!(decode_key_hex("00ff").unwrap(), vec![0, 255]);
    assert!(decode_key_hex("").is_err());
    assert!(decode_key_hex("0").is_err());
    assert!(decode_key_hex("0g").is_err());
}

#[test]
fn every_symmetry_is_undone_by_its_inverse() {
    let mut state = GameState::with_config(BoardConfig::default());
    state.light = (1 << 3) | (1 << 10) | (1 << 40);
    state.dark = (1 << 0) | (1 << 22);
    state.forbidden = 1 << 48;
    state.reserve = [11, 12];
    state.last_relocated_to = [Some(40), None];
    state.last_player = Some(Player::Light);
    state.turn = Player::Dark;
    for symmetry in 0..8_u8 {
        let moved = transform_position(state, symmetry);
        assert_eq!(transform_position(moved, inverse_symmetry(symmetry)), state);
    }
}
