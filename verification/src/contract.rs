//! Typed validation for the shared JSON interchange contract.
//!
//! The field names and bounds are those of the Pathagon interchange schema;
//! this module keeps the native engine's boundary typed and checks the same
//! invariants before a record is accepted. Reading and writing JSON happens
//! around the library: these types carry the parsed values.

use vstd::prelude::*;
use vstd::utf8::encode_utf8;

use crate::bitboard::lemma_take_push_contains;

verus! {

pub const CONTRACT_VERSION: u8 = 1;

pub const RULES_VERSION: &'static str = "pathagon-rules-v1";

pub const ROOT_Q_SOURCE: &'static str = "mcts-root-q-v1";

#[derive(Clone, Copy, Debug, PartialEq, Eq, Structural)]
pub enum ContractPlayer {
    Light,
    Dark,
}

#[derive(Clone, Debug, PartialEq, Eq)]
pub struct GameConfig {
    pub rules_version: String,
    pub board_size: u8,
    pub reserve_per_player: u8,
    pub max_plies: u16,
    pub repetition_limit: u8,
}

#[derive(Clone, Copy, Debug, PartialEq, Eq, Structural)]
pub enum ContractAction {
    Place { to: u8 },
    Relocate { from: u8, to: u8 },
}

#[derive(Clone, Debug, PartialEq, Eq)]
pub struct Position {
    pub contract_version: u8,
    pub config: GameConfig,
    pub board: Vec<Option<ContractPlayer>>,
    pub reserve: PlayerNumbers,
    pub turn: ContractPlayer,
    pub forbidden: Vec<u8>,
    pub last_relocated_to: PlayerSquares,
    pub winner: Option<ContractPlayer>,
    pub ply: u16,
}

#[derive(Clone, Copy, Debug, PartialEq, Eq, Structural)]
pub struct PlayerNumbers {
    pub light: u16,
    pub dark: u16,
}

#[derive(Clone, Copy, Debug, PartialEq, Eq, Structural)]
pub struct PlayerSquares {
    pub light: Option<u8>,
    pub dark: Option<u8>,
}

#[derive(Clone, Debug, PartialEq, Eq)]
pub struct EngineMetadata {
    pub id: String,
    pub runtime: String,
    pub version: String,
    pub rules_version: String,
}

#[derive(Clone, Copy, Debug, PartialEq, Eq, Structural)]
pub struct EvaluatorWeights {
    pub path: i32,
    pub material: i32,
    pub capture: i32,
    pub structure: i32,
    pub threat: i32,
    pub edge: i32,
}

#[derive(Clone, Debug, PartialEq, Eq)]
pub struct AgentManifest {
    pub manifest_version: u8,
    pub runtime: String,
    pub rules_version: String,
    pub evaluator_weights: EvaluatorWeights,
    pub depth: u32,
    pub node_budget: u64,
    pub beam: u32,
    pub model_hash: Option<String>,
}

/// An agent's identity and manifest as a replay record states them; the
/// free-form parameters that records may add travel beside it.
#[derive(Clone, Debug, PartialEq, Eq)]
pub struct AgentSpecification {
    pub id: String,
    pub name: String,
    pub version: String,
    pub kind: String,
    pub engine_id: String,
    pub manifest: AgentManifest,
}

/// One move of a replay record; the learned targets that records may add
/// travel beside it.
#[derive(Clone, Debug, PartialEq, Eq)]
pub struct ContractMove {
    pub ply: u16,
    pub player: ContractPlayer,
    pub action: ContractAction,
    pub captured: Vec<u8>,
    pub nodes: u64,
    pub completed_depth: u8,
    pub table_hits: u64,
    pub score: Option<i32>,
    pub book_hit: Option<bool>,
}

#[derive(Clone, Debug, PartialEq, Eq)]
pub struct AgentSpecifications {
    pub light: AgentSpecification,
    pub dark: AgentSpecification,
}

/// A recorded game as the interchange contract states it; free-form
/// provenance and per-move learned targets travel beside it.
#[derive(Clone, Debug, PartialEq, Eq)]
pub struct ReplayRecord {
    pub contract_version: u8,
    pub seed: u64,
    pub config: GameConfig,
    pub engine: EngineMetadata,
    pub agents: PlayerAgents,
    pub agent_specifications: AgentSpecifications,
    pub initial_position: Option<Position>,
    pub winner: Option<ContractPlayer>,
    pub result: String,
    pub reason: String,
    pub plies: u16,
    pub moves: Vec<ContractMove>,
}

#[derive(Clone, Debug, PartialEq, Eq)]
pub struct PlayerAgents {
    pub light: String,
    pub dark: String,
}

/// Whether two strings hold the same text.
pub fn same_text(a: &str, b: &str) -> (r: bool)
    ensures
        r == (a@ == b@),
{
    String::from_str(a) == String::from_str(b)
}

/// The runtimes that the contract names.
pub open spec fn known_runtime(runtime: Seq<char>) -> bool {
    runtime == "typescript"@ || runtime == "rust"@ || runtime == "python"@
}

fn is_known_runtime(runtime: &str) -> (r: bool)
    ensures
        r == known_runtime(runtime@),
{
    same_text(runtime, "typescript") || same_text(runtime, "rust") || same_text(runtime, "python")
}

/// An ASCII hexadecimal digit.
pub open spec fn is_hex_digit(byte: u8) -> bool {
    (48 <= byte <= 57) || (97 <= byte <= 102) || (65 <= byte <= 70)
}

/// The bytes of `sha256:` followed by 64 hexadecimal digits.
pub open spec fn is_model_hash(bytes: Seq<u8>) -> bool {
    &&& bytes.len() == 71
    &&& bytes.take(7) == seq![115u8, 104u8, 97u8, 50u8, 53u8, 54u8, 58u8]
    &&& forall|i: int| 7 <= i < 71 ==> is_hex_digit(#[trigger] bytes[i])
}

fn check_model_hash(hash: &str) -> (r: bool)
    ensures
        r == is_model_hash(encode_utf8(hash@)),
{
    let bytes = hash.as_bytes();
    if bytes.len() != 71 {
        return false;
    }
    let prefixed = bytes[0] == 115 && bytes[1] == 104 && bytes[2] == 97 && bytes[3] == 50
        && bytes[4] == 53 && bytes[5] == 54 && bytes[6] == 58;
    proof {
        let expected = seq![115u8, 104u8, 97u8, 50u8, 53u8, 54u8, 58u8];
        if prefixed {
            assert(bytes@.take(7) =~= expected);
        } else if bytes@.take(7) == expected {
            assert(bytes@.take(7)[0] == expected[0]);
            assert(bytes@.take(7)[1] == expected[1]);
            assert(bytes@.take(7)[2] == expected[2]);
            assert(bytes@.take(7)[3] == expected[3]);
            assert(bytes@.take(7)[4] == expected[4]);
            assert(bytes@.take(7)[5] == expected[5]);
            assert(bytes@.take(7)[6] == expected[6]);
        }
    }
    if !prefixed {
        return false;
    }
    let mut i: usize = 7;
    while i < 71
        invariant
            bytes@ == encode_utf8(hash@),
            bytes@.len() == 71,
            bytes@.take(7) == seq![115u8, 104u8, 97u8, 50u8, 53u8, 54u8, 58u8],
            7 <= i <= 71,
            forall|k: int| 7 <= k < i ==> is_hex_digit(#[trigger] bytes@[k]),
        decreases 71 - i,
    {
        let byte = bytes[i];
        if !((48 <= byte && byte <= 57) || (97 <= byte && byte <= 102) || (65 <= byte && byte
            <= 70)) {
            proof {
                assert(!is_hex_digit(bytes@[i as int]));
            }
            return false;
        }
        i = i + 1;
    }
    true
}

/// Every square is on the board and none is listed twice.
pub open spec fn valid_squares(squares: Seq<u8>, cells: u8) -> bool {
    forall|i: int|
        0 <= i < squares.len() ==> #[trigger] squares[i] < cells && !squares.take(i).contains(
            squares[i],
        )
}

pub fn validate_squares(squares: &[u8], cells: u8, label: &str) -> (r: Result<(), String>)
    ensures
        r is Ok <==> valid_squares(squares@, cells),
        r matches Err(e) ==> e@ == "invalid "@ + label@ + " square"@,
{
    let mut index: usize = 0;
    while index < squares.len()
        invariant
            index <= squares@.len(),
            forall|i: int|
                0 <= i < index ==> #[trigger] squares@[i] < cells && !squares@.take(i).contains(
                    squares@[i],
                ),
        decreases squares@.len() - index,
    {
        let square = squares[index];
        let mut seen = false;
        let mut earlier: usize = 0;
        while earlier < index
            invariant
                index < squares@.len(),
                square == squares@[index as int],
                earlier <= index,
                seen == squares@.take(earlier as int).contains(square),
            decreases index - earlier,
        {
            proof {
                lemma_take_push_contains(squares@, earlier as int, square);
            }
            if squares[earlier] == square {
                seen = true;
            }
            earlier = earlier + 1;
        }
        proof {
            assert(squares@.take(earlier as int) =~= squares@.take(index as int));
        }
        if square >= cells || seen {
            let message = String::from_str("invalid ").concat(label).concat(" square");
            return Err(message);
        }
        index = index + 1;
    }
    Ok(())
}

impl GameConfig {
    /// The configurations the contract accepts.
    pub open spec fn spec_valid(&self) -> bool {
        &&& self.rules_version@ == RULES_VERSION@
        &&& 3 <= self.board_size <= 8
        &&& 1 <= self.reserve_per_player <= 64
        &&& 1 <= self.max_plies <= 4096
        &&& self.repetition_limit == 3
    }

    /// The message of the first check that the configuration fails.
    pub open spec fn spec_error(&self) -> Seq<char> {
        if self.rules_version@ != RULES_VERSION@ {
            "unsupported rules version"@
        } else if !(3 <= self.board_size <= 8) {
            "board size outside 3..8"@
        } else if !(1 <= self.reserve_per_player <= 64) {
            "reserve outside 1..64"@
        } else if !(1 <= self.max_plies <= 4096) {
            "maximum plies outside 1..4096"@
        } else {
            "repetition limit must be 3"@
        }
    }

    pub fn validate(&self) -> (r: Result<(), String>)
        ensures
            r is Ok <==> self.spec_valid(),
            r matches Err(e) ==> e@ == self.spec_error(),
    {
        if !same_text(self.rules_version.as_str(), RULES_VERSION) {
            return Err(String::from_str("unsupported rules version"));
        }
        if !(3 <= self.board_size && self.board_size <= 8) {
            return Err(String::from_str("board size outside 3..8"));
        }
        if self.reserve_per_player == 0 || self.reserve_per_player > 64 {
            return Err(String::from_str("reserve outside 1..64"));
        }
        if self.max_plies == 0 || self.max_plies > 4096 {
            return Err(String::from_str("maximum plies outside 1..4096"));
        }
        if self.repetition_limit != 3 {
            return Err(String::from_str("repetition limit must be 3"));
        }
        Ok(())
    }

    pub fn cells(&self) -> (r: u8)
        requires
            self.board_size <= 15,
        ensures
            r == self.board_size * self.board_size,
    {
        proof {
            assert(self.board_size * self.board_size <= 225) by (nonlinear_arith)
                requires
                    self.board_size <= 15,
            ;
        }
        self.board_size * self.board_size
    }
}

impl ContractAction {
    /// Both squares of the action are on a board of `cells` squares.
    pub open spec fn spec_fits(self, cells: u8) -> bool {
        match self {
            ContractAction::Place { to } => to < cells,
            ContractAction::Relocate { from, to } => from < cells && to < cells,
        }
    }

    pub fn validate(&self, cells: u8) -> (r: Result<(), String>)
        ensures
            r is Ok <==> self.spec_fits(cells),
            r matches Err(e) ==> e@ == "action square outside configured board"@,
    {
        let fits = match self {
            Self::Place { to } => *to < cells,
            Self::Relocate { from, to } => *from < cells && *to < cells,
        };
        if fits {
            Ok(())
        } else {
            Err(String::from_str("action square outside configured board"))
        }
    }
}

impl Position {
    /// The shape checks of a seeded position.
    pub open spec fn spec_valid(&self) -> bool {
        &&& self.contract_version == CONTRACT_VERSION
        &&& self.config.spec_valid()
        &&& self.board@.len() == self.config.board_size * self.config.board_size
        &&& valid_squares(self.forbidden@, (self.config.board_size * self.config.board_size) as u8)
        &&& (self.last_relocated_to.light matches Some(sq) ==> sq < self.config.board_size
            * self.config.board_size)
        &&& (self.last_relocated_to.dark matches Some(sq) ==> sq < self.config.board_size
            * self.config.board_size)
        &&& self.ply <= self.config.max_plies
    }

    pub fn validate(&self) -> (r: Result<(), String>)
        ensures
            r is Ok <==> self.spec_valid(),
            r matches Err(e) ==> !self.config.spec_valid() && self.contract_version
                == CONTRACT_VERSION ==> e@ == self.config.spec_error(),
    {
        if self.contract_version != CONTRACT_VERSION {
            return Err(String::from_str("unsupported position contract version"));
        }
        self.config.validate()?;
        let cells = self.config.cells();
        if self.board.len() != cells as usize {
            return Err(String::from_str("position board length mismatch"));
        }
        validate_squares(self.forbidden.as_slice(), cells, "forbidden")?;
        match self.last_relocated_to.light {
            Some(square) => {
                if square >= cells {
                    return Err(String::from_str("relocation marker outside board"));
                }
            },
            None => {},
        }
        match self.last_relocated_to.dark {
            Some(square) => {
                if square >= cells {
                    return Err(String::from_str("relocation marker outside board"));
                }
            },
            None => {},
        }
        if self.ply > self.config.max_plies {
            return Err(String::from_str("position ply exceeds maximum"));
        }
        Ok(())
    }
}

impl EngineMetadata {
    /// The metadata the contract accepts: identifier and version lengths in
    /// bytes, a known runtime and the supported rules.
    pub open spec fn spec_valid(&self) -> bool {
        &&& self.id@.len() > 0 && encode_utf8(self.id@).len() <= 128
        &&& self.version@.len() > 0 && encode_utf8(self.version@).len() <= 32
        &&& known_runtime(self.runtime@)
        &&& self.rules_version@ == RULES_VERSION@
    }

    pub fn validate(&self) -> (r: Result<(), String>)
        ensures
            r is Ok <==> self.spec_valid(),
    {
        let id_len = self.id.as_str().as_bytes().len();
        let version_len = self.version.as_str().as_bytes().len();
        if self.id.as_str().is_empty() || id_len > 128 || self.version.as_str().is_empty()
            || version_len > 32 {
            return Err(String::from_str("invalid engine metadata fields"));
        }
        if !is_known_runtime(self.runtime.as_str()) || !same_text(
            self.rules_version.as_str(),
            RULES_VERSION,
        ) {
            return Err(String::from_str("invalid engine metadata"));
        }
        Ok(())
    }
}

impl AgentManifest {
    /// The manifests the contract accepts.
    pub open spec fn spec_valid(&self) -> bool {
        &&& self.manifest_version == 1
        &&& known_runtime(self.runtime@)
        &&& self.rules_version@ == RULES_VERSION@
        &&& (self.model_hash matches Some(hash) ==> is_model_hash(encode_utf8(hash@)))
    }

    pub fn validate(&self) -> (r: Result<(), String>)
        ensures
            r is Ok <==> self.spec_valid(),
    {
        if self.manifest_version != 1 || !is_known_runtime(self.runtime.as_str()) || !same_text(
            self.rules_version.as_str(),
            RULES_VERSION,
        ) {
            return Err(String::from_str("invalid agent manifest metadata"));
        }
        match &self.model_hash {
            Some(hash) => {
                if !check_model_hash(hash.as_str()) {
                    return Err(String::from_str("invalid agent model hash"));
                }
            },
            None => {},
        }
        Ok(())
    }
}


/// The agent kinds that the contract names.
pub open spec fn known_kind(kind: Seq<char>) -> bool {
    kind == "random"@ || kind == "heuristic"@ || kind == "search"@ || kind == "learned"@ || kind
        == "puct"@
}

impl AgentSpecification {
    /// The specifications the contract accepts: every identifying field
    /// present, a known kind, and a valid manifest.
    pub open spec fn spec_valid(&self) -> bool {
        &&& self.id@.len() > 0
        &&& self.name@.len() > 0
        &&& self.version@.len() > 0
        &&& self.engine_id@.len() > 0
        &&& known_kind(self.kind@)
        &&& self.manifest.spec_valid()
    }

    pub fn validate(&self) -> (r: Result<(), String>)
        ensures
            r is Ok <==> self.spec_valid(),
            r matches Err(e) ==> {
                let fields = self.id@.len() > 0 && self.name@.len() > 0 && self.version@.len() > 0
                    && self.engine_id@.len() > 0;
                &&& !fields ==> e@ == "invalid agent specification fields"@
                &&& fields && !known_kind(self.kind@) ==> e@ == "invalid agent kind"@
            },
    {
        if self.id.as_str().is_empty() || self.name.as_str().is_empty()
            || self.version.as_str().is_empty() || self.engine_id.as_str().is_empty() {
            return Err(String::from_str("invalid agent specification fields"));
        }
        let kind = self.kind.as_str();
        if !(same_text(kind, "random") || same_text(kind, "heuristic") || same_text(kind, "search")
            || same_text(kind, "learned") || same_text(kind, "puct")) {
            return Err(String::from_str("invalid agent kind"));
        }
        self.manifest.validate()
    }
}


/// The termination reasons that the contract names.
pub open spec fn known_reason(reason: Seq<char>) -> bool {
    reason == "path"@ || reason == "threefold-repetition"@ || reason == "max-plies"@ || reason
        == "no-legal-action"@
}

impl ReplayRecord {
    /// The initial position, when given, is valid, matches the replay's
    /// configuration and is not already won.
    pub open spec fn initial_ok(&self) -> bool {
        match self.initial_position {
            Some(initial) => {
                &&& initial.spec_valid()
                &&& initial.config.board_size == self.config.board_size
                &&& initial.config.reserve_per_player == self.config.reserve_per_player
                &&& initial.config.max_plies == self.config.max_plies
                &&& initial.winner is None
            },
            None => true,
        }
    }

    /// Everything the contract checks before the moves.
    pub open spec fn header_valid(&self) -> bool {
        &&& self.contract_version == CONTRACT_VERSION
        &&& self.seed <= u32::MAX
        &&& self.config.spec_valid()
        &&& self.initial_ok()
        &&& self.engine.spec_valid()
        &&& self.agent_specifications.light.spec_valid()
        &&& self.agent_specifications.dark.spec_valid()
        &&& self.agents.light@ == self.agent_specifications.light.id@
        &&& self.agents.dark@ == self.agent_specifications.dark.id@
        &&& self.result@ == (if self.winner is Some {
            "win"@
        } else {
            "draw"@
        })
        &&& known_reason(self.reason@)
        &&& self.plies <= self.config.max_plies
        &&& self.moves@.len() == self.plies
    }

    /// Move `i` is the `i + 1`-th ply, with its action and captured squares
    /// on the board.
    pub open spec fn move_valid(&self, i: int) -> bool {
        let cells = (self.config.board_size * self.config.board_size) as u8;
        &&& self.moves@[i].ply == i + 1
        &&& self.moves@[i].action.spec_fits(cells)
        &&& valid_squares(self.moves@[i].captured@, cells)
    }

    /// The checks before the moves, in the contract's order.
    pub fn validate_header(&self) -> (r: Result<(), String>)
        ensures
            r is Ok <==> self.header_valid(),
            r matches Err(e) ==> {
                &&& self.contract_version != CONTRACT_VERSION ==> e@ == "unsupported replay contract version"@
                &&& self.contract_version == CONTRACT_VERSION && self.seed > u32::MAX ==> e@ == "seed outside u32"@
            },
            r matches Err(e) ==> ({
                let earlier = self.contract_version == CONTRACT_VERSION && self.seed <= u32::MAX
                    && self.config.spec_valid() && self.initial_ok() && self.engine.spec_valid()
                    && self.agent_specifications.light.spec_valid()
                    && self.agent_specifications.dark.spec_valid();
                let ids = self.agents.light@ == self.agent_specifications.light.id@
                    && self.agents.dark@ == self.agent_specifications.dark.id@;
                let result = self.result@ == (if self.winner is Some {
                    "win"@
                } else {
                    "draw"@
                });
                &&& earlier && !ids ==> e@ == "agent ID does not match specification"@
                &&& earlier && ids && !result ==> e@ == "result does not match winner"@
                &&& earlier && ids && result && !known_reason(self.reason@) ==> e@ == "invalid termination reason"@
                &&& earlier && ids && result && known_reason(self.reason@) ==> e@ == "replay plies do not match moves"@
            }),
    {
        if self.contract_version != CONTRACT_VERSION {
            return Err(String::from_str("unsupported replay contract version"));
        }
        if self.seed > 0xffff_ffffu64 {
            return Err(String::from_str("seed outside u32"));
        }
        match self.config.validate() {
            Ok(()) => {},
            Err(e) => {
                return Err(e);
            },
        }
        match &self.initial_position {
            Some(initial) => {
                match initial.validate() {
                    Ok(()) => {},
                    Err(e) => {
                        return Err(e);
                    },
                }
                if initial.config.board_size != self.config.board_size
                    || initial.config.reserve_per_player != self.config.reserve_per_player
                    || initial.config.max_plies != self.config.max_plies {
                    return Err(String::from_str("initial position configuration does not match replay"));
                }
                if initial.winner.is_some() {
                    return Err(String::from_str("initial position must be non-terminal"));
                }
            },
            None => {},
        }
        match self.engine.validate() {
            Ok(()) => {},
            Err(e) => {
                return Err(e);
            },
        }
        match self.agent_specifications.light.validate() {
            Ok(()) => {},
            Err(e) => {
                return Err(e);
            },
        }
        match self.agent_specifications.dark.validate() {
            Ok(()) => {},
            Err(e) => {
                return Err(e);
            },
        }
        if !same_text(self.agents.light.as_str(), self.agent_specifications.light.id.as_str())
            || !same_text(self.agents.dark.as_str(), self.agent_specifications.dark.id.as_str()) {
            return Err(String::from_str("agent ID does not match specification"));
        }
        let expected = if self.winner.is_some() {
            "win"
        } else {
            "draw"
        };
        if !same_text(self.result.as_str(), expected) {
            return Err(String::from_str("result does not match winner"));
        }
        let reason = self.reason.as_str();
        if !(same_text(reason, "path") || same_text(reason, "threefold-repetition") || same_text(
            reason,
            "max-plies",
        ) || same_text(reason, "no-legal-action")) {
            return Err(String::from_str("invalid termination reason"));
        }
        if self.plies > self.config.max_plies || self.moves.len() != self.plies as usize {
            return Err(String::from_str("replay plies do not match moves"));
        }
        Ok(())
    }

    /// The checks of move `i`, in the contract's order, on a record whose
    /// configuration is valid.
    pub fn validate_move(&self, i: usize) -> (r: Result<(), String>)
        requires
            self.config.spec_valid(),
            i < self.moves@.len(),
            self.moves@.len() <= u16::MAX,
        ensures
            r is Ok <==> self.move_valid(i as int),
            r matches Err(e) ==> self.moves@[i as int].ply != i + 1 ==> e@ == "move ply is not sequential"@,
            r matches Err(e) ==> self.moves@[i as int].ply == i + 1 && !self.moves@[i as int].action.spec_fits(
                (self.config.board_size * self.config.board_size) as u8,
            ) ==> e@ == "action square outside configured board"@,
            r matches Err(e) ==> self.moves@[i as int].ply == i + 1 && self.moves@[i as int].action.spec_fits(
                (self.config.board_size * self.config.board_size) as u8,
            ) ==> e@ == "invalid captured square"@,
    {
        let entry = &self.moves[i];
        if entry.ply as usize != i + 1 {
            return Err(String::from_str("move ply is not sequential"));
        }
        let cells = self.config.cells();
        match entry.action.validate(cells) {
            Ok(()) => {},
            Err(e) => {
                return Err(e);
            },
        }
        let result = validate_squares(entry.captured.as_slice(), cells, "captured");
        proof {
            reveal_strlit("invalid ");
            reveal_strlit("captured");
            reveal_strlit(" square");
            reveal_strlit("invalid captured square");
        }
        result
    }
}

} // verus!
