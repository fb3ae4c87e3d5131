//! The portable boundary of the engine. The rules use compact bitboards; the
//! browser and the learner use square arrays. This module translates between
//! the two, checks what arrives from outside, and carries search results
//! across in the same portable form.

use vstd::prelude::*;

use crate::bitboard::{
    bit, bit_squares, has_bit, lemma_has_bit_or, lemma_has_bit_single, lemma_has_bit_zero,
    lemma_mask_squares_contains, lemma_same_bits_equal, lemma_squares_below, mask_squares, single,
};
use crate::contract::{
    valid_squares, ContractAction, ContractPlayer, GameConfig, PlayerNumbers, PlayerSquares,
    Position, CONTRACT_VERSION, RULES_VERSION,
};
use crate::geometry::lemma_cells;
use crate::rules::{
    is_winning_path, listed_mask, occupied_mask, player_of, winning_path, Action, BoardConfig,
    GameState, Player,
};
use crate::search::{EvaluationWeights, MoveEvaluation, SearchConfig, SearchResult};

verus! {

/// Hard ceiling for node budgets that arrive through the runtime boundary.
pub const MAX_RUNTIME_SEARCH_NODES: u64 = 10_000_000;

/// A position in portable form: one entry per square, reserves as numbers,
/// squares as indices.
#[derive(Clone, Debug, PartialEq, Eq)]
pub struct RuntimePosition {
    pub contract_version: u8,
    pub config: GameConfig,
    pub board: Vec<Option<ContractPlayer>>,
    pub reserve: PlayerNumbers,
    pub turn: ContractPlayer,
    pub forbidden: Vec<u8>,
    pub last_relocated_to: PlayerSquares,
    pub last_capture: u8,
    pub last_player: Option<ContractPlayer>,
    pub winner: Option<ContractPlayer>,
    pub winning_path: Vec<u8>,
    pub ply: u16,
}

/// The complete result of applying one action at the runtime boundary:
/// the mover, the action, the captured squares and the position after it.
#[derive(Clone, Debug, PartialEq, Eq)]
pub struct RuntimeActionResult {
    pub player: ContractPlayer,
    pub action: ContractAction,
    pub captured: Vec<u8>,
    pub position: RuntimePosition,
}

#[derive(Clone, Copy, Debug, PartialEq, Eq, Structural)]
pub struct RuntimeSearchConfig {
    pub depth: u8,
    pub max_nodes: u64,
    pub beam_width: usize,
    pub weights: EvaluationWeights,
    pub tactical_proof_horizon: Option<u8>,
}

#[derive(Clone, Copy, Debug, PartialEq, Eq, Structural)]
pub struct RuntimeSearchResult {
    pub action: Option<ContractAction>,
    pub score: i32,
    pub nodes: u64,
    pub exhausted: bool,
    pub completed_depth: u8,
    pub table_hits: u64,
}

#[derive(Clone, Copy, Debug, PartialEq, Eq, Structural)]
pub struct RuntimeMoveEvaluation {
    pub action: ContractAction,
    pub before_score: i32,
    pub score: i32,
    pub delta: i32,
    pub nodes: u64,
    pub exhausted: bool,
    pub completed_depth: u8,
    pub table_hits: u64,
}

// ---------------------------------------------------------------------------
// Players, actions and search records
// ---------------------------------------------------------------------------

pub open spec fn contract_player(player: Player) -> ContractPlayer {
    match player {
        Player::Light => ContractPlayer::Light,
        Player::Dark => ContractPlayer::Dark,
    }
}

pub open spec fn contract_action(action: Action) -> ContractAction {
    match action {
        Action::Place { to } => ContractAction::Place { to },
        Action::Relocate { from, to } => ContractAction::Relocate { from, to },
    }
}

pub open spec fn rule_action(action: ContractAction) -> Action {
    match action {
        ContractAction::Place { to } => Action::Place { to },
        ContractAction::Relocate { from, to } => Action::Relocate { from, to },
    }
}

pub open spec fn contract_option(player: Option<Player>) -> Option<ContractPlayer> {
    match player {
        Some(p) => Some(contract_player(p)),
        None => None,
    }
}

pub open spec fn rule_option(player: Option<ContractPlayer>) -> Option<Player> {
    match player {
        Some(p) => Some(player_of(p)),
        None => None,
    }
}

impl From<Player> for ContractPlayer {
    fn from(player: Player) -> (r: Self) {
        match player {
            Player::Light => ContractPlayer::Light,
            Player::Dark => ContractPlayer::Dark,
        }
    }
}

impl vstd::std_specs::convert::FromSpecImpl<Player> for ContractPlayer {
    open spec fn obeys_from_spec() -> bool {
        true
    }

    open spec fn from_spec(v: Player) -> Self {
        contract_player(v)
    }
}

impl From<ContractPlayer> for Player {
    fn from(player: ContractPlayer) -> (r: Self) {
        match player {
            ContractPlayer::Light => Player::Light,
            ContractPlayer::Dark => Player::Dark,
        }
    }
}

impl vstd::std_specs::convert::FromSpecImpl<ContractPlayer> for Player {
    open spec fn obeys_from_spec() -> bool {
        true
    }

    open spec fn from_spec(v: ContractPlayer) -> Self {
        player_of(v)
    }
}

impl From<Action> for ContractAction {
    fn from(action: Action) -> (r: Self) {
        match action {
            Action::Place { to } => ContractAction::Place { to },
            Action::Relocate { from, to } => ContractAction::Relocate { from, to },
        }
    }
}

impl vstd::std_specs::convert::FromSpecImpl<Action> for ContractAction {
    open spec fn obeys_from_spec() -> bool {
        true
    }

    open spec fn from_spec(v: Action) -> Self {
        contract_action(v)
    }
}

impl From<ContractAction> for Action {
    fn from(action: ContractAction) -> (r: Self) {
        match action {
            ContractAction::Place { to } => Action::Place { to },
            ContractAction::Relocate { from, to } => Action::Relocate { from, to },
        }
    }
}

impl vstd::std_specs::convert::FromSpecImpl<ContractAction> for Action {
    open spec fn obeys_from_spec() -> bool {
        true
    }

    open spec fn from_spec(v: ContractAction) -> Self {
        rule_action(v)
    }
}

/// The search configuration a runtime request runs: its own, with the node
/// budget held to `MAX_RUNTIME_SEARCH_NODES`.
pub open spec fn clamped_config(config: RuntimeSearchConfig) -> SearchConfig {
    SearchConfig {
        depth: config.depth,
        max_nodes: if config.max_nodes < MAX_RUNTIME_SEARCH_NODES {
            config.max_nodes
        } else {
            MAX_RUNTIME_SEARCH_NODES
        },
        beam_width: config.beam_width,
        weights: config.weights,
        tactical_proof_horizon: config.tactical_proof_horizon,
    }
}

impl From<RuntimeSearchConfig> for SearchConfig {
    fn from(config: RuntimeSearchConfig) -> (r: Self) {
        SearchConfig {
            depth: config.depth,
            max_nodes: if config.max_nodes < MAX_RUNTIME_SEARCH_NODES {
                config.max_nodes
            } else {
                MAX_RUNTIME_SEARCH_NODES
            },
            beam_width: config.beam_width,
            weights: config.weights,
            tactical_proof_horizon: config.tactical_proof_horizon,
        }
    }
}

impl vstd::std_specs::convert::FromSpecImpl<RuntimeSearchConfig> for SearchConfig {
    open spec fn obeys_from_spec() -> bool {
        true
    }

    open spec fn from_spec(v: RuntimeSearchConfig) -> Self {
        clamped_config(v)
    }
}

pub open spec fn runtime_result(result: SearchResult) -> RuntimeSearchResult {
    RuntimeSearchResult {
        action: match result.action {
            Some(a) => Some(contract_action(a)),
            None => None,
        },
        score: result.score,
        nodes: result.nodes,
        exhausted: result.exhausted,
        completed_depth: result.completed_depth,
        table_hits: result.table_hits,
    }
}

impl From<SearchResult> for RuntimeSearchResult {
    fn from(result: SearchResult) -> (r: Self) {
        RuntimeSearchResult {
            action: match result.action {
                Some(a) => Some(ContractAction::from(a)),
                None => None,
            },
            score: result.score,
            nodes: result.nodes,
            exhausted: result.exhausted,
            completed_depth: result.completed_depth,
            table_hits: result.table_hits,
        }
    }
}

impl vstd::std_specs::convert::FromSpecImpl<SearchResult> for RuntimeSearchResult {
    open spec fn obeys_from_spec() -> bool {
        true
    }

    open spec fn from_spec(v: SearchResult) -> Self {
        runtime_result(v)
    }
}

pub open spec fn runtime_evaluation(result: MoveEvaluation) -> RuntimeMoveEvaluation {
    RuntimeMoveEvaluation {
        action: contract_action(result.action),
        before_score: result.before_score,
        score: result.score,
        delta: result.delta,
        nodes: result.nodes,
        exhausted: result.exhausted,
        completed_depth: result.completed_depth,
        table_hits: result.table_hits,
    }
}

impl From<MoveEvaluation> for RuntimeMoveEvaluation {
    fn from(result: MoveEvaluation) -> (r: Self) {
        RuntimeMoveEvaluation {
            action: ContractAction::from(result.action),
            before_score: result.before_score,
            score: result.score,
            delta: result.delta,
            nodes: result.nodes,
            exhausted: result.exhausted,
            completed_depth: result.completed_depth,
            table_hits: result.table_hits,
        }
    }
}

impl vstd::std_specs::convert::FromSpecImpl<MoveEvaluation> for RuntimeMoveEvaluation {
    open spec fn obeys_from_spec() -> bool {
        true
    }

    open spec fn from_spec(v: MoveEvaluation) -> Self {
        runtime_evaluation(v)
    }
}


// ---------------------------------------------------------------------------
// Positions
// ---------------------------------------------------------------------------

/// What stands on `square` of a rule position, in portable form.
pub open spec fn cell(state: GameState, square: int) -> Option<ContractPlayer> {
    if has_bit(state.light, square) {
        Some(ContractPlayer::Light)
    } else if has_bit(state.dark, square) {
        Some(ContractPlayer::Dark)
    } else {
        None
    }
}

/// Whether `position` is the portable form of `state`: the same
/// configuration under the current contract, one entry per square, the
/// forbidden squares in increasing order, and, once the game is won, a
/// winning path of the winner.
pub open spec fn shows(position: RuntimePosition, state: GameState) -> bool {
    &&& position.contract_version == CONTRACT_VERSION
    &&& position.config.rules_version@ == RULES_VERSION@
    &&& position.config.board_size == state.config.board_size
    &&& position.config.reserve_per_player == state.config.reserve_per_player
    &&& position.config.max_plies == state.config.max_plies
    &&& position.config.repetition_limit == 3
    &&& position.board@ == Seq::new(state.config.spec_cells() as nat, |i: int| cell(state, i))
    &&& position.reserve == (PlayerNumbers {
        light: state.reserve[0] as u16,
        dark: state.reserve[1] as u16,
    })
    &&& position.turn == contract_player(state.turn)
    &&& position.forbidden@ == mask_squares(state.forbidden)
    &&& position.last_relocated_to == (PlayerSquares {
        light: state.last_relocated_to[0],
        dark: state.last_relocated_to[1],
    })
    &&& position.last_capture == state.last_capture
    &&& position.last_player == contract_option(state.last_player)
    &&& position.winner == contract_option(state.winner)
    &&& state.winner is None ==> position.winning_path@.len() == 0
    &&& state.winner matches Some(p) ==> {
        &&& position.winning_path@.len() > 0 <==> state.spec_has_winning_path(p)
        &&& position.winning_path@.len() > 0 ==> is_winning_path(
            state.config.board_size as int,
            state.spec_pieces(p),
            p,
            position.winning_path@,
        )
    }
    &&& position.ply == state.ply
}

/// The contract position that the runtime checks an incoming position as.
pub open spec fn contract_position(position: RuntimePosition) -> Position {
    Position {
        contract_version: position.contract_version,
        config: position.config,
        board: position.board,
        reserve: position.reserve,
        turn: position.turn,
        forbidden: position.forbidden,
        last_relocated_to: position.last_relocated_to,
        winner: position.winner,
        ply: position.ply,
    }
}

/// The runtime positions the engine accepts: a valid contract position, at
/// most four captures on the last move, and reserves that fit a byte.
pub open spec fn accepted(position: RuntimePosition) -> bool {
    &&& contract_position(position).spec_valid()
    &&& position.last_capture <= 4
    &&& position.reserve.light <= 255
    &&& position.reserve.dark <= 255
}

/// The rule position that an accepted runtime position describes.
pub open spec fn runtime_state(position: RuntimePosition) -> GameState {
    GameState {
        config: BoardConfig {
            board_size: position.config.board_size,
            reserve_per_player: position.config.reserve_per_player,
            max_plies: position.config.max_plies,
        },
        light: occupied_mask(position.board@, ContractPlayer::Light, position.board@.len()),
        dark: occupied_mask(position.board@, ContractPlayer::Dark, position.board@.len()),
        reserve: [position.reserve.light as u8, position.reserve.dark as u8],
        turn: player_of(position.turn),
        forbidden: listed_mask(position.forbidden@, position.forbidden@.len()),
        last_relocated_to: [position.last_relocated_to.light, position.last_relocated_to.dark],
        last_capture: position.last_capture,
        last_player: rule_option(position.last_player),
        winner: rule_option(position.winner),
        ply: position.ply,
    }
}

impl RuntimePosition {
    /// The portable form of a rule position.
    pub fn from_state(state: GameState) -> (r: RuntimePosition)
        requires
            3 <= state.config.board_size <= 8,
        ensures
            shows(r, state),
    {
        proof {
            lemma_cells(state.config.board_size as int);
        }
        let cells = state.config.cells();
        let mut board: Vec<Option<ContractPlayer>> = Vec::new();
        let mut square: u8 = 0;
        while square < cells
            invariant
                square <= cells,
                cells == state.config.spec_cells(),
                cells <= 64,
                board@ == Seq::new(square as nat, |i: int| cell(state, i)),
            decreases cells - square,
        {
            let piece = match state.board_at(square) {
                Some(player) => Some(ContractPlayer::from(player)),
                None => None,
            };
            board.push(piece);
            proof {
                assert(board@ =~= Seq::new((square + 1) as nat, |i: int| cell(state, i)));
            }
            square = square + 1;
        }
        let path = match state.winner {
            Some(player) => winning_path(state, player),
            None => Vec::new(),
        };
        RuntimePosition {
            contract_version: CONTRACT_VERSION,
            config: GameConfig {
                rules_version: String::from_str(RULES_VERSION),
                board_size: state.config.board_size,
                reserve_per_player: state.config.reserve_per_player,
                max_plies: state.config.max_plies,
                repetition_limit: 3,
            },
            board,
            reserve: PlayerNumbers {
                light: state.reserve[0] as u16,
                dark: state.reserve[1] as u16,
            },
            turn: ContractPlayer::from(state.turn),
            forbidden: bit_squares(state.forbidden),
            last_relocated_to: PlayerSquares {
                light: state.last_relocated_to[0],
                dark: state.last_relocated_to[1],
            },
            last_capture: state.last_capture,
            last_player: match state.last_player {
                Some(player) => Some(ContractPlayer::from(player)),
                None => None,
            },
            winner: match state.winner {
                Some(player) => Some(ContractPlayer::from(player)),
                None => None,
            },
            winning_path: path,
            ply: state.ply,
        }
    }

    /// Checks an incoming position and builds its rule position: the
    /// contract checks first, then the capture count, then the reserves.
    pub fn into_state(self) -> (r: Result<GameState, String>)
        ensures
            r is Ok <==> accepted(self),
            r matches Ok(s) ==> s == runtime_state(self),
            r matches Err(e) ==> contract_position(self).spec_valid() && self.last_capture > 4
                ==> e@ == "last capture exceeds the four orthogonal directions"@,
            r matches Err(e) ==> contract_position(self).spec_valid() && self.last_capture <= 4
                && self.reserve.light > 255 ==> e@ == "light reserve exceeds u8"@,
            r matches Err(e) ==> contract_position(self).spec_valid() && self.last_capture <= 4
                && self.reserve.light <= 255 ==> e@ == "dark reserve exceeds u8"@,
    {
        let ghost original = self;
        let RuntimePosition {
            contract_version,
            config,
            board,
            reserve,
            turn,
            forbidden,
            last_relocated_to,
            last_capture,
            last_player,
            winner,
            winning_path: _,
            ply,
        } = self;
        let position = Position {
            contract_version,
            config,
            board,
            reserve,
            turn,
            forbidden,
            last_relocated_to,
            winner,
            ply,
        };
        assert(position == contract_position(original));
        match position.validate() {
            Ok(()) => {},
            Err(e) => {
                return Err(e);
            },
        }
        if last_capture > 4 {
            return Err(String::from_str("last capture exceeds the four orthogonal directions"));
        }
        let board_config = match BoardConfig::from_contract(&position.config) {
            Ok(c) => c,
            Err(e) => {
                return Err(e);
            },
        };
        proof {
            lemma_cells(board_config.board_size as int);
        }
        let mut light: u64 = 0;
        let mut dark: u64 = 0;
        let mut square: usize = 0;
        while square < position.board.len()
            invariant
                square <= position.board@.len(),
                position.board@.len() <= 64,
                light == occupied_mask(position.board@, ContractPlayer::Light, square as nat),
                dark == occupied_mask(position.board@, ContractPlayer::Dark, square as nat),
            decreases position.board@.len() - square,
        {
            match position.board[square] {
                Some(ContractPlayer::Light) => {
                    light = light | bit(square as u8);
                },
                Some(ContractPlayer::Dark) => {
                    dark = dark | bit(square as u8);
                },
                None => {},
            }
            square = square + 1;
        }
        let mut forbidden_mask: u64 = 0;
        let mut index: usize = 0;
        while index < position.forbidden.len()
            invariant
                index <= position.forbidden@.len(),
                forall|i: int|
                    0 <= i < position.forbidden@.len() ==> #[trigger] position.forbidden@[i] < 64,
                forbidden_mask == listed_mask(position.forbidden@, index as nat),
            decreases position.forbidden@.len() - index,
        {
            forbidden_mask = forbidden_mask | bit(position.forbidden[index]);
            index = index + 1;
        }
        if position.reserve.light > 255 {
            return Err(String::from_str("light reserve exceeds u8"));
        }
        if position.reserve.dark > 255 {
            return Err(String::from_str("dark reserve exceeds u8"));
        }
        let state = GameState {
            config: board_config,
            light,
            dark,
            reserve: [position.reserve.light as u8, position.reserve.dark as u8],
            turn: Player::from(position.turn),
            forbidden: forbidden_mask,
            last_relocated_to: [position.last_relocated_to.light, position.last_relocated_to.dark],
            last_capture,
            last_player: match last_player {
                Some(player) => Some(Player::from(player)),
                None => None,
            },
            winner: match position.winner {
                Some(player) => Some(Player::from(player)),
                None => None,
            },
            ply: position.ply,
        };
        proof {
            assert(state.reserve =~= runtime_state(original).reserve);
            assert(state.last_relocated_to =~= runtime_state(original).last_relocated_to);
        }
        Ok(state)
    }
}


/// No square of `mask` lies at or beyond `cells`.
pub open spec fn within(mask: u64, cells: int) -> bool {
    forall|i: int| 0 <= i < 64 && has_bit(mask, i) ==> i < cells
}

/// The rule positions that the runtime boundary carries unchanged: a valid
/// configuration, every square and marker on the board, no square held by
/// both players, at most four captures on the last move, and the ply within
/// the limit.
pub open spec fn portable(state: GameState) -> bool {
    let cells = state.config.spec_cells();
    &&& state.config.valid()
    &&& state.ply <= state.config.max_plies
    &&& (state.last_relocated_to[0] matches Some(sq) ==> sq < cells)
    &&& (state.last_relocated_to[1] matches Some(sq) ==> sq < cells)
    &&& within(state.light, cells)
    &&& within(state.dark, cells)
    &&& within(state.forbidden, cells)
    &&& forall|i: int| !(#[trigger] has_bit(state.light, i) && has_bit(state.dark, i))
    &&& state.last_capture <= 4
}

proof fn lemma_occupied_bits(board: Seq<Option<ContractPlayer>>, who: ContractPlayer, n: nat)
    requires
        n <= 64,
    ensures
        forall|i: int| #[trigger] has_bit(occupied_mask(board, who, n), i) == (0 <= i < n && board[i] == Some(who)),
    decreases n,
{
    if n == 0 {
        assert forall|i: int| #[trigger] has_bit(occupied_mask(board, who, n), i) == (0 <= i < n && board[i] == Some(who)) by {
            lemma_has_bit_zero(i);
        }
    } else {
        lemma_occupied_bits(board, who, (n - 1) as nat);
        let rest = occupied_mask(board, who, (n - 1) as nat);
        assert forall|i: int| #[trigger] has_bit(occupied_mask(board, who, n), i) == (0 <= i < n && board[i] == Some(who)) by {
            if board[n - 1] == Some(who) {
                lemma_has_bit_or(rest, single(n - 1), i);
                lemma_has_bit_single(n - 1, i);
            }
            assert(has_bit(rest, i) == (0 <= i < n - 1 && board[i] == Some(who)));
        }
    }
}

proof fn lemma_listed_bits(squares: Seq<u8>, n: nat)
    requires
        n <= squares.len(),
        forall|j: int| 0 <= j < squares.len() ==> #[trigger] squares[j] < 64,
    ensures
        forall|i: int| #[trigger] has_bit(listed_mask(squares, n), i) == (exists|j: int| 0 <= j < n && squares[j] == i),
    decreases n,
{
    if n == 0 {
        assert forall|i: int| #[trigger] has_bit(listed_mask(squares, n), i) == (exists|j: int| 0 <= j < n && squares[j] == i) by {
            lemma_has_bit_zero(i);
        }
    } else {
        lemma_listed_bits(squares, (n - 1) as nat);
        let rest = listed_mask(squares, (n - 1) as nat);
        let last = squares[n - 1] as int;
        assert forall|i: int| #[trigger] has_bit(listed_mask(squares, n), i) == (exists|j: int| 0 <= j < n && squares[j] == i) by {
            lemma_has_bit_or(rest, single(last), i);
            lemma_has_bit_single(last, i);
            if exists|j: int| 0 <= j < n && squares[j] == i {
                let j = choose|j: int| 0 <= j < n && squares[j] == i;
                if j < n - 1 {
                    assert(has_bit(rest, i));
                }
            }
            if has_bit(rest, i) {
                let j = choose|j: int| 0 <= j < n - 1 && squares[j] == i;
                assert(0 <= j < n && squares[j] == i);
            }
        }
    }
}

/// A rule position survives the runtime boundary: its portable form is
/// accepted, and reading that form back gives the same rule position.
pub proof fn law_runtime_round_trip(state: GameState, position: RuntimePosition)
    requires
        portable(state),
        shows(position, state),
    ensures
        accepted(position),
        runtime_state(position) == state,
{
    let cells = state.config.spec_cells();
    lemma_cells(state.config.board_size as int);
    let board = position.board@;
    let squares = position.forbidden@;
    lemma_squares_below(state.forbidden, 64);
    assert(valid_squares(squares, cells as u8)) by {
        assert forall|i: int| 0 <= i < squares.len() implies #[trigger] squares[i] < cells as u8 && !squares.take(i).contains(squares[i]) by {
            if squares.take(i).contains(squares[i]) {
                let k = choose|k: int| 0 <= k < i && squares.take(i)[k] == squares[i];
                assert(squares[k] < squares[i]);
            }
        }
    }
    assert(contract_position(position).spec_valid());
    let back = runtime_state(position);
    lemma_occupied_bits(board, ContractPlayer::Light, board.len());
    lemma_occupied_bits(board, ContractPlayer::Dark, board.len());
    assert forall|i: int| 0 <= i < 64 implies has_bit(back.light, i) == has_bit(state.light, i) by {
        if has_bit(state.light, i) {
            assert(i < cells);
        }
    }
    assert forall|i: int| 0 <= i < 64 implies has_bit(back.dark, i) == has_bit(state.dark, i) by {
        if has_bit(state.dark, i) {
            assert(i < cells);
            assert(!has_bit(state.light, i));
        }
    }
    lemma_same_bits_equal(back.light, state.light);
    lemma_same_bits_equal(back.dark, state.dark);
    assert forall|j: int| 0 <= j < squares.len() implies #[trigger] squares[j] < 64 by {}
    lemma_listed_bits(squares, squares.len());
    assert forall|i: int| 0 <= i < 64 implies has_bit(back.forbidden, i) == has_bit(state.forbidden, i) by {
        lemma_mask_squares_contains(state.forbidden, i);
        if has_bit(state.forbidden, i) {
            assert(squares.contains(i as u8));
            let j = choose|j: int| 0 <= j < squares.len() && squares[j] == i as u8;
            assert(squares[j] == i);
        }
        if has_bit(back.forbidden, i) {
            let j = choose|j: int| 0 <= j < squares.len() && squares[j] == i;
            assert(squares.contains(i as u8));
        }
    }
    lemma_same_bits_equal(back.forbidden, state.forbidden);
    assert(back.reserve =~= state.reserve);
    assert(back.last_relocated_to =~= state.last_relocated_to);
    assert(back.turn == state.turn);
    assert(back.last_player == state.last_player);
    assert(back.winner == state.winner);
}


// ---------------------------------------------------------------------------
// Actions at the boundary
// ---------------------------------------------------------------------------

/// The legal actions of a position in portable form, in the rules' order.
pub fn legal_contract_actions(state: GameState) -> (r: Vec<ContractAction>)
    requires
        state.wf(),
    ensures
        r@ == state.spec_legal_actions().map_values(|a: Action| contract_action(a)),
{
    let actions = state.legal_actions();
    let mut result: Vec<ContractAction> = Vec::new();
    let mut i: usize = 0;
    while i < actions.len()
        invariant
            i <= actions@.len(),
            actions@ == state.spec_legal_actions(),
            result@ == actions@.take(i as int).map_values(|a: Action| contract_action(a)),
        decreases actions@.len() - i,
    {
        proof {
            assert(actions@.take(i as int + 1).map_values(|a: Action| contract_action(a))
                =~= actions@.take(i as int).map_values(|a: Action| contract_action(a)).push(
                contract_action(actions@[i as int]),
            ));
        }
        result.push(ContractAction::from(actions[i]));
        i = i + 1;
    }
    proof {
        assert(actions@.take(actions@.len() as int) =~= actions@);
    }
    result
}

/// Applies a portable action. A legal one answers the mover, the action,
/// the captured squares in increasing order and the position after it; any
/// other is refused.
pub fn apply_action_transition(state: GameState, action: ContractAction) -> (r: Result<RuntimeActionResult, String>)
    requires
        state.wf(),
        state.spec_legal_actions().contains(rule_action(action)) ==> state.room_to_move(),
    ensures
        r is Ok <==> state.spec_legal_actions().contains(rule_action(action)),
        r matches Ok(t) ==> {
            let transition = state.spec_apply(rule_action(action));
            &&& t.player == contract_player(state.turn)
            &&& t.action == action
            &&& t.captured@ == mask_squares(transition.captured)
            &&& shows(t.position, transition.state)
        },
        r matches Err(e) ==> e@ == "illegal Pathagon action"@,
{
    let player = state.turn;
    match state.apply(Action::from(action)) {
        Ok(transition) => Ok(
            RuntimeActionResult {
                player: ContractPlayer::from(player),
                action,
                captured: bit_squares(transition.captured),
                position: RuntimePosition::from_state(transition.state),
            },
        ),
        Err(e) => Err(e.to_owned()),
    }
}

} // verus!
