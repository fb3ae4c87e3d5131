//! Pathagon rules on bitboards.
//!
//! Squares are row-major. Light connects the far row to the near row; dark
//! connects the left column to the right column. Boards from 3x3 through 8x8
//! fit in the bitboard representation and share the same rule implementation.

use vstd::prelude::*;
use vstd::string::StringSliceAdditionalSpecFns;
use vstd::utf8::{decode_utf8, encode_utf8};

use crate::bitboard::{
    bit, bit_count, bit_squares, count_below, has_bit, lemma_count_below_add, lemma_count_below_or,
    lemma_count_below_remove,
    lemma_count_below_single, lemma_count_below_subset, lemma_has_bit_and, lemma_has_bit_low,
    lemma_has_bit_max, lemma_has_bit_not, lemma_has_bit_or, lemma_has_bit_single,
    lemma_has_bit_zero, lemma_nonzero_has_bit, lemma_squares_below, mask_squares, popcount,
    single, squares_below, test_bit,
};
use crate::contract::{ContractPlayer, GameConfig, Position};
use crate::text::{
    ascii_bytes, decimal_string, decimal_text, find_byte, first_offset, is_ascii_text, is_digit,
    lemma_decimal_text, lemma_encode_ascii, lemma_parse_decimal, lemma_text_of_bytes, parse_u8,
    parse_u8_spec, skip_ascii_char, split_before_ascii,
};
use crate::geometry::{
    adjacent, edge_mask, lemma_cells, lemma_geometry, neighbor_mask_for, on_far_edge, on_near_edge,
};

verus! {

pub const MIN_BOARD_SIZE: u8 = 3;

pub const MAX_BOARD_SIZE: u8 = 8;

pub const BOARD_SIZE: u8 = 7;

pub const CELL_COUNT: u8 = 49;

pub const MAX_CELL_COUNT: u8 = 64;

pub const DEFAULT_MAX_PLIES: u16 = 180;

#[derive(Clone, Copy, Debug, PartialEq, Eq, Hash, Structural)]
pub struct BoardConfig {
    pub board_size: u8,
    pub reserve_per_player: u8,
    pub max_plies: u16,
}

impl Default for BoardConfig {
    /// The deployed 7x7 game with fourteen pieces a side.
    fn default() -> (r: Self)
        ensures
            r == (BoardConfig { board_size: 7, reserve_per_player: 14, max_plies: 180 }),
    {
        Self { board_size: BOARD_SIZE, reserve_per_player: 14, max_plies: DEFAULT_MAX_PLIES }
    }
}

impl BoardConfig {
    /// The configuration values that `new` and `with_max_plies` accept.
    pub open spec fn valid(self) -> bool {
        &&& MIN_BOARD_SIZE <= self.board_size <= MAX_BOARD_SIZE
        &&& 1 <= self.reserve_per_player <= 64
        &&& 1 <= self.max_plies <= 4096
    }

    /// Number of squares.
    pub open spec fn spec_cells(self) -> int {
        self.board_size as int * self.board_size as int
    }

    /// The mask of every square on the board.
    pub open spec fn spec_full_board(self) -> u64 {
        if self.spec_cells() == 64 {
            u64::MAX
        } else {
            ((1u64 << (self.spec_cells() as u64)) - 1u64) as u64
        }
    }

    pub fn new(board_size: u8, reserve_per_player: u8) -> (r: Result<Self, String>)
        ensures
            r is Ok <==> (MIN_BOARD_SIZE <= board_size <= MAX_BOARD_SIZE && 1
                <= reserve_per_player <= 64),
            r matches Ok(c) ==> c == (BoardConfig {
                board_size,
                reserve_per_player,
                max_plies: DEFAULT_MAX_PLIES,
            }),
            r matches Err(e) ==> e@ == (if !(MIN_BOARD_SIZE <= board_size <= MAX_BOARD_SIZE) {
                "board size outside 3..8"@
            } else {
                "reserve outside 1..64"@
            }),
    {
        if !(MIN_BOARD_SIZE <= board_size && board_size <= MAX_BOARD_SIZE) {
            return Err(String::from_str("board size outside 3..8"));
        }
        if reserve_per_player == 0 || reserve_per_player > 64 {
            return Err(String::from_str("reserve outside 1..64"));
        }
        Ok(Self { board_size, reserve_per_player, max_plies: DEFAULT_MAX_PLIES })
    }

    pub fn with_max_plies(self, max_plies: u16) -> (r: Result<Self, String>)
        ensures
            r is Ok <==> 1 <= max_plies <= 4096,
            r matches Ok(c) ==> c == (BoardConfig { max_plies, ..self }),
            r matches Err(e) ==> e@ == "maximum plies outside 1..4096"@,
    {
        if max_plies == 0 || max_plies > 4096 {
            return Err(String::from_str("maximum plies outside 1..4096"));
        }
        Ok(Self { max_plies, ..self })
    }

    pub fn cells(self) -> (r: u8)
        requires
            self.board_size <= 15,
        ensures
            r == self.spec_cells(),
    {
        proof {
            assert(self.board_size * self.board_size <= 225) by (nonlinear_arith)
                requires
                    self.board_size <= 15,
            ;
        }
        self.board_size * self.board_size
    }

    pub fn full_board(self) -> (r: u64)
        requires
            self.board_size <= 8,
        ensures
            r == self.spec_full_board(),
            forall|j: int| has_bit(r, j) == (0 <= j < self.spec_cells()),
    {
        proof {
            assert(self.board_size * self.board_size <= 64) by (nonlinear_arith)
                requires
                    self.board_size <= 8,
            ;
        }
        let cells = self.cells();
        let r = if cells == 64 {
            u64::MAX
        } else {
            proof {
                let c = cells as u64;
                assert(1u64 << c >= 1u64) by (bit_vector)
                    requires
                        c < 64,
                ;
            }
            (1u64 << (cells as u64)) - 1
        };
        proof {
            assert forall|j: int| has_bit(r, j) == (0 <= j < self.spec_cells()) by {
                if cells == 64 {
                    lemma_has_bit_max(j);
                } else {
                    lemma_has_bit_low(cells as int, j);
                }
            }
        }
        r
    }
}

#[derive(Clone, Copy, Debug, PartialEq, Eq, Hash, PartialOrd, Ord, Structural)]
pub enum Player {
    Light,
    Dark,
}

impl Player {
    /// Slot of the player in the two-entry per-player arrays.
    pub open spec fn slot(self) -> int {
        match self {
            Player::Light => 0,
            Player::Dark => 1,
        }
    }

    pub open spec fn opponent(self) -> Player {
        match self {
            Player::Light => Player::Dark,
            Player::Dark => Player::Light,
        }
    }

    pub fn other(self) -> (r: Self)
        ensures
            r == self.opponent(),
            r != self,
    {
        match self {
            Self::Light => Self::Dark,
            Self::Dark => Self::Light,
        }
    }

    pub fn index(self) -> (r: usize)
        ensures
            r == self.slot(),
    {
        match self {
            Self::Light => 0,
            Self::Dark => 1,
        }
    }

    pub fn as_str(self) -> (r: &'static str)
        ensures
            r@ == (match self {
                Player::Light => "light"@,
                Player::Dark => "dark"@,
            }),
    {
        match self {
            Self::Light => "light",
            Self::Dark => "dark",
        }
    }
}

/// Each player is the other's opponent.
pub proof fn law_opponent_involution(player: Player)
    ensures
        player.opponent().opponent() == player,
        player.opponent() != player,
        player.opponent().slot() == 1 - player.slot(),
{
}

#[derive(Clone, Copy, Debug, PartialEq, Eq, Hash, Structural)]
pub enum Action {
    Place { to: u8 },
    Relocate { from: u8, to: u8 },
}

impl Action {
    pub open spec fn spec_destination(self) -> u8 {
        match self {
            Action::Place { to } => to,
            Action::Relocate { to, .. } => to,
        }
    }

    /// The deterministic tie-break order of actions.
    pub open spec fn spec_order(self) -> int {
        match self {
            Action::Place { to } => to as int,
            Action::Relocate { from, to } => from as int * 64 + to as int,
        }
    }

    pub fn destination(self) -> (r: u8)
        ensures
            r == self.spec_destination(),
    {
        match self {
            Self::Place { to } | Self::Relocate { to, .. } => to,
        }
    }

    pub fn order(self) -> (r: u16)
        ensures
            r == self.spec_order(),
    {
        match self {
            Self::Place { to } => to as u16,
            Self::Relocate { from, to } => from as u16 * 64 + to as u16,
        }
    }

    /// The text notation `P<to>` or `R<from>><to>`.
    pub open spec fn spec_notation(self) -> Seq<char> {
        match self {
            Action::Place { to } => "P"@ + decimal_text(to as nat),
            Action::Relocate { from, to } => "R"@ + decimal_text(from as nat) + ">"@ + decimal_text(
                to as nat,
            ),
        }
    }

    /// The text notation of the action, as `parse_action` reads it.
    pub fn notation(self) -> (r: String)
        ensures
            r@ == self.spec_notation(),
    {
        match self {
            Self::Place { to } => String::from_str("P").concat(decimal_string(to).as_str()),
            Self::Relocate { from, to } => String::from_str("R").concat(
                decimal_string(from).as_str(),
            ).concat(">").concat(decimal_string(to).as_str()),
        }
    }
}

#[derive(Clone, Copy, Debug, PartialEq, Eq, Hash)]
pub struct GameState {
    pub config: BoardConfig,
    pub light: u64,
    pub dark: u64,
    pub reserve: [u8; 2],
    pub turn: Player,
    pub forbidden: u64,
    pub last_relocated_to: [Option<u8>; 2],
    pub last_capture: u8,
    pub last_player: Option<Player>,
    pub winner: Option<Player>,
    pub ply: u16,
}

#[derive(Clone, Copy, Debug, PartialEq, Eq)]
pub struct Transition {
    pub state: GameState,
    pub captured: u64,
}

/// A sequence of squares that runs from the player's near edge through
/// orthogonally adjacent squares holding that player's pieces.
pub open spec fn is_chain(size: int, pieces: u64, player: Player, path: Seq<u8>) -> bool {
    &&& path.len() > 0
    &&& on_near_edge(size, player, path[0] as int)
    &&& forall|i: int| 0 <= i < path.len() ==> has_bit(pieces, #[trigger] path[i] as int)
    &&& forall|i: int|
        0 <= i < path.len() - 1 ==> #[trigger] adjacent(size, path[i] as int, path[i + 1] as int)
}

/// A chain that reaches the far edge: the player has connected the two sides.
pub open spec fn is_winning_path(size: int, pieces: u64, player: Player, path: Seq<u8>) -> bool {
    &&& is_chain(size, pieces, player, path)
    &&& on_far_edge(size, player, path.last() as int)
}

/// The pieces of `player` connect the player's two edges.
pub open spec fn connects(size: int, pieces: u64, player: Player) -> bool {
    exists|path: Seq<u8>| is_winning_path(size, pieces, player, path)
}

impl GameState {
    pub open spec fn spec_pieces(self, player: Player) -> u64 {
        match player {
            Player::Light => self.light,
            Player::Dark => self.dark,
        }
    }

    /// `player` has a winning path in this position.
    pub open spec fn spec_has_winning_path(self, player: Player) -> bool {
        connects(self.config.board_size as int, self.spec_pieces(player), player)
    }

    pub fn pieces(self, player: Player) -> (r: u64)
        ensures
            r == self.spec_pieces(player),
    {
        match player {
            Player::Light => self.light,
            Player::Dark => self.dark,
        }
    }
}

/// Placement actions onto the listed squares, in order.
pub open spec fn place_actions(to: Seq<u8>) -> Seq<Action> {
    to.map_values(|t: u8| Action::Place { to: t })
}

/// Relocations of every listed source onto every listed destination, sources
/// outermost, both in list order.
pub open spec fn relocation_actions(from: Seq<u8>, to: Seq<u8>) -> Seq<Action>
    decreases from.len(),
{
    if from.len() == 0 {
        Seq::empty()
    } else {
        relocation_actions(from.drop_last(), to) + to.map_values(
            |t: u8| Action::Relocate { from: from.last(), to: t },
        )
    }
}

/// The capture along one of the four directions from `origin`: the adjacent
/// opponent piece is taken when the square behind it holds an own piece.
pub open spec fn capture_ray(size: int, origin: int, opponent: u64, own: u64, direction: int) -> u64 {
    let row = origin / size;
    let column = origin % size;
    let fits = if direction == 0 {
        row >= 2
    } else if direction == 1 {
        row + 2 < size
    } else if direction == 2 {
        column >= 2
    } else {
        column + 2 < size
    };
    let step = if direction == 0 {
        -size
    } else if direction == 1 {
        size
    } else if direction == 2 {
        -1
    } else {
        1
    };
    if fits && has_bit(opponent, origin + step) && has_bit(own, origin + 2 * step) {
        single(origin + step)
    } else {
        0
    }
}

impl GameState {
    pub open spec fn reserve_of(self, player: Player) -> u8 {
        self.reserve[player.slot()]
    }

    pub open spec fn marker_of(self, player: Player) -> Option<u8> {
        self.last_relocated_to[player.slot()]
    }

    /// The state shapes on which the rules run: a supported board size and
    /// relocation markers that name squares of the bitboard.
    pub open spec fn wf(self) -> bool {
        &&& MIN_BOARD_SIZE <= self.config.board_size <= MAX_BOARD_SIZE
        &&& (self.marker_of(Player::Light) matches Some(sq) ==> sq < 64)
        &&& (self.marker_of(Player::Dark) matches Some(sq) ==> sq < 64)
    }

    /// Empty, non-forbidden squares of the board.
    pub open spec fn spec_destinations(self) -> u64 {
        self.config.spec_full_board() & !(self.light | self.dark | self.forbidden)
    }

    /// The mover's pieces, less the piece that it relocated last turn.
    pub open spec fn spec_sources(self) -> u64 {
        let pieces = self.spec_pieces(self.turn);
        match self.marker_of(self.turn) {
            Some(sq) => pieces & !single(sq as int),
            None => pieces,
        }
    }

    /// Legal actions in canonical order: none once a winner exists; placements
    /// while the mover has reserve pieces; otherwise every relocation of a
    /// movable piece to an empty, non-forbidden square.
    pub open spec fn spec_legal_actions(self) -> Seq<Action> {
        if self.winner is Some {
            Seq::empty()
        } else if self.reserve_of(self.turn) > 0 {
            place_actions(mask_squares(self.spec_destinations()))
        } else {
            relocation_actions(
                mask_squares(self.spec_sources()),
                mask_squares(self.spec_destinations()),
            )
        }
    }

    pub open spec fn with_reserve(self, player: Player, value: u8) -> GameState {
        match player {
            Player::Light => GameState { reserve: [value, self.reserve[1]], ..self },
            Player::Dark => GameState { reserve: [self.reserve[0], value], ..self },
        }
    }

    pub open spec fn with_marker(self, player: Player, value: Option<u8>) -> GameState {
        match player {
            Player::Light => GameState {
                last_relocated_to: [value, self.last_relocated_to[1]],
                ..self
            },
            Player::Dark => GameState {
                last_relocated_to: [self.last_relocated_to[0], value],
                ..self
            },
        }
    }

    pub open spec fn with_pieces(self, player: Player, pieces: u64) -> GameState {
        match player {
            Player::Light => GameState { light: pieces, ..self },
            Player::Dark => GameState { dark: pieces, ..self },
        }
    }

    /// Opponent pieces that a piece of `player` arriving on `origin` captures.
    pub open spec fn spec_captures(self, origin: u8, player: Player) -> u64 {
        let size = self.config.board_size as int;
        let opponent = self.spec_pieces(player.opponent());
        let own = self.spec_pieces(player);
        capture_ray(size, origin as int, opponent, own, 0) | capture_ray(
            size,
            origin as int,
            opponent,
            own,
            1,
        ) | capture_ray(size, origin as int, opponent, own, 2) | capture_ray(
            size,
            origin as int,
            opponent,
            own,
            3,
        )
    }

    /// The position after the mover plays `action`: the piece lands, flanked
    /// opponent pieces return to their owner's reserve and become forbidden
    /// squares for the next move, and a connected chain wins.
    pub open spec fn spec_apply(self, action: Action) -> Transition {
        let player = self.turn;
        let opponent = player.opponent();
        let to = action.spec_destination();
        let moved = match action {
            Action::Place { .. } => self.with_reserve(
                player,
                (self.reserve_of(player) - 1) as u8,
            ).with_marker(player, None),
            Action::Relocate { from, to } => self.with_pieces(
                player,
                self.spec_pieces(player) & !single(from as int),
            ).with_marker(player, Some(to)),
        };
        let placed = moved.with_pieces(player, moved.spec_pieces(player) | single(to as int));
        let captured = placed.spec_captures(to, player);
        let cleared = placed.with_pieces(
            opponent,
            placed.spec_pieces(opponent) & !captured,
        ).with_reserve(opponent, (placed.reserve_of(opponent) + bit_count(captured)) as u8);
        Transition {
            state: GameState {
                forbidden: captured,
                last_capture: bit_count(captured) as u8,
                last_player: Some(player),
                winner: if cleared.spec_has_winning_path(player) {
                    Some(player)
                } else {
                    None
                },
                turn: opponent,
                ply: (self.ply + 1) as u16,
                ..cleared
            },
            captured,
        }
    }

    /// The bounds under which playing a legal action cannot overflow a counter.
    pub open spec fn room_to_move(self) -> bool {
        &&& self.reserve_of(self.turn.opponent()) <= 251
        &&& self.ply < u16::MAX
    }
}

proof fn lemma_place_actions_push(to: Seq<u8>, i: int)
    requires
        0 <= i < to.len(),
    ensures
        place_actions(to.take(i + 1)) == place_actions(to.take(i)).push(
            Action::Place { to: to[i] },
        ),
{
    assert(place_actions(to.take(i + 1)) =~= place_actions(to.take(i)).push(
        Action::Place { to: to[i] },
    ));
}

proof fn lemma_relocation_actions_len(from: Seq<u8>, to: Seq<u8>)
    ensures
        relocation_actions(from, to).len() == from.len() * to.len(),
    decreases from.len(),
{
    if from.len() > 0 {
        lemma_relocation_actions_len(from.drop_last(), to);
        let n = from.len() as int;
        let m = to.len() as int;
        assert((n - 1) * m + m == n * m) by (nonlinear_arith);
    }
}

/// Every relocation listed pairs a listed source with a listed destination.
proof fn lemma_relocation_actions_member(from: Seq<u8>, to: Seq<u8>, k: int)
    requires
        0 <= k < relocation_actions(from, to).len(),
    ensures
        exists|i: int, j: int|
            0 <= i < from.len() && 0 <= j < to.len() && relocation_actions(from, to)[k]
                == (Action::Relocate { from: from[i], to: to[j] }),
    decreases from.len(),
{
    let rest = relocation_actions(from.drop_last(), to);
    if k < rest.len() {
        lemma_relocation_actions_member(from.drop_last(), to, k);
        let (i, j) = choose|i: int, j: int|
            0 <= i < from.drop_last().len() && 0 <= j < to.len() && rest[k] == (
            Action::Relocate { from: from.drop_last()[i], to: to[j] });
        assert(relocation_actions(from, to)[k] == rest[k]);
        assert(from[i] == from.drop_last()[i]);
    } else {
        let j = k - rest.len();
        assert(relocation_actions(from, to)[k] == Action::Relocate {
            from: from[from.len() - 1],
            to: to[j],
        });
    }
}

impl GameState {
    /// A player's pieces, on the board and in reserve.
    pub open spec fn inventory(self, player: Player) -> nat {
        bit_count(self.spec_pieces(player)) + self.reserve_of(player) as nat
    }

    /// The positions that play can continue from without a reserve counter
    /// overflowing: well formed, with each inventory small enough that every
    /// piece can sit in reserve.
    pub open spec fn inventory_kept(self) -> bool {
        &&& self.wf()
        &&& self.inventory(Player::Light) <= 251
        &&& self.inventory(Player::Dark) <= 251
    }
}

proof fn lemma_captures_are_opponent_pieces(state: GameState, origin: u8, player: Player)
    ensures
        forall|i: int|
            0 <= i < 64 && has_bit(state.spec_captures(origin, player), i) ==> has_bit(
                state.spec_pieces(player.opponent()),
                i,
            ),
{
    let size = state.config.board_size as int;
    let opponent = state.spec_pieces(player.opponent());
    let own = state.spec_pieces(player);
    assert forall|i: int|
        0 <= i < 64 && has_bit(state.spec_captures(origin, player), i) implies has_bit(
        opponent,
        i,
    ) by {
        let r0 = capture_ray(size, origin as int, opponent, own, 0);
        let r1 = capture_ray(size, origin as int, opponent, own, 1);
        let r2 = capture_ray(size, origin as int, opponent, own, 2);
        let r3 = capture_ray(size, origin as int, opponent, own, 3);
        lemma_has_bit_or(r0 | r1 | r2, r3, i);
        lemma_has_bit_or(r0 | r1, r2, i);
        lemma_has_bit_or(r0, r1, i);
        lemma_has_bit_zero(i);
        let row = origin as int / size;
        let column = origin as int % size;
        assert forall|d: int| 0 <= d < 4 && has_bit(#[trigger] capture_ray(size, origin as int, opponent, own, d), i) implies has_bit(opponent, i) by {
            let step = if d == 0 {
                -size
            } else if d == 1 {
                size
            } else if d == 2 {
                -1
            } else {
                1
            };
            let target = origin as int + step;
            if has_bit(opponent, target) && 0 <= target < 64 {
                lemma_has_bit_single(target, i);
            }
        }
    }
}

/// Playing a legal action keeps every piece accounted for: what leaves the
/// board returns to its owner's reserve, and a placed piece leaves it.
pub proof fn law_play_keeps_inventory(state: GameState, action: Action)
    requires
        state.inventory_kept(),
        state.spec_legal_actions().contains(action),
    ensures
        state.spec_apply(action).state.inventory(Player::Light) == state.inventory(Player::Light),
        state.spec_apply(action).state.inventory(Player::Dark) == state.inventory(Player::Dark),
        state.spec_apply(action).state.inventory_kept(),
        state.spec_apply(action).state.config == state.config,
        state.spec_apply(action).state.ply == state.ply + 1 || state.ply == u16::MAX,
{
    lemma_legal_action_shape(state, action);
    let player = state.turn;
    let opponent = player.opponent();
    let to = action.spec_destination() as int;
    lemma_has_bit_and(state.config.spec_full_board(), !(state.light | state.dark | state.forbidden), to);
    lemma_has_bit_not(state.light | state.dark | state.forbidden, to);
    lemma_has_bit_or(state.light | state.dark, state.forbidden, to);
    lemma_has_bit_or(state.light, state.dark, to);
    assert(0 <= to < 64);
    assert(!has_bit(state.spec_pieces(player), to));
    let moved = match action {
        Action::Place { .. } => state.with_reserve(player, (state.reserve_of(player) - 1) as u8).with_marker(player, None),
        Action::Relocate { from, to } => state.with_pieces(player, state.spec_pieces(player) & !single(from as int)).with_marker(player, Some(to)),
    };
    match action {
        Action::Place { .. } => {
            lemma_count_below_add(state.spec_pieces(player), to, 64);
        },
        Action::Relocate { from, .. } => {
            let f = from as int;
            lemma_has_bit_and(state.spec_pieces(player), !single(f), f);
            let sources = state.spec_sources();
            assert(has_bit(sources, f));
            match state.marker_of(player) {
                Some(sq) => {
                    lemma_has_bit_and(state.spec_pieces(player), !single(sq as int), f);
                },
                None => {},
            }
            assert(0 <= f < 64) by {
                if !(0 <= f < 64) {
                    assert(!has_bit(sources, f));
                }
            }
            assert(has_bit(state.spec_pieces(player), f));
            assert forall|i: int| 0 <= i < 64 && has_bit(single(f), i) implies has_bit(state.spec_pieces(player), i) by {
                lemma_has_bit_single(f, i);
            }
            lemma_count_below_remove(state.spec_pieces(player), single(f), 64);
            lemma_count_below_single(f, 64);
            let rest = state.spec_pieces(player) & !single(f);
            lemma_has_bit_and(state.spec_pieces(player), !single(f), to);
            lemma_has_bit_not(single(f), to);
            lemma_count_below_add(rest, to, 64);
        },
    }
    let placed = moved.with_pieces(player, moved.spec_pieces(player) | single(to));
    let captured = placed.spec_captures(to as u8, player);
    lemma_captures_are_opponent_pieces(placed, to as u8, player);
    lemma_count_below_remove(placed.spec_pieces(opponent), captured, 64);
}

/// A position has at most 4096 legal actions.
pub proof fn lemma_legal_action_bound(state: GameState)
    ensures
        state.spec_legal_actions().len() <= 4096,
{
    lemma_squares_below(state.spec_destinations(), 64);
    lemma_squares_below(state.spec_sources(), 64);
    let from = mask_squares(state.spec_sources());
    let to = mask_squares(state.spec_destinations());
    lemma_relocation_actions_len(from, to);
    assert(from.len() * to.len() <= 64 * 64) by (nonlinear_arith)
        requires
            from.len() <= 64,
            to.len() <= 64,
    ;
}

/// What membership in the legal list says about an action.
proof fn lemma_relocations_distinct(from: Seq<u8>, to: Seq<u8>)
    requires
        forall|a: int, b: int| 0 <= a < b < from.len() ==> #[trigger] from[a] < #[trigger] from[b],
        forall|a: int, b: int| 0 <= a < b < to.len() ==> #[trigger] to[a] < #[trigger] to[b],
    ensures
        relocation_actions(from, to).no_duplicates(),
        forall|i: int|
            0 <= i < relocation_actions(from, to).len() ==> (#[trigger] relocation_actions(from, to)[i]) is Relocate
                && from.len() > 0 && relocation_actions(from, to)[i]->Relocate_from <= from.last(),
    decreases from.len(),
{
    if from.len() > 0 {
        let head = from.drop_last();
        lemma_relocations_distinct(head, to);
        let left = relocation_actions(head, to);
        let right = to.map_values(|t: u8| Action::Relocate { from: from.last(), to: t });
        let all = relocation_actions(from, to);
        assert(all == left + right);
        assert forall|i: int| 0 <= i < left.len() implies (#[trigger] left[i])->Relocate_from < from.last() by {
            assert(from[head.len() - 1] < from[from.len() - 1]);
        }
        assert forall|i: int, j: int| 0 <= i < j < all.len() implies all[i] != all[j] by {
            if j < left.len() {
                assert(all[i] == left[i] && all[j] == left[j]);
            } else if i >= left.len() {
                assert(all[i] == right[i - left.len()] && all[j] == right[j - left.len()]);
            } else {
                assert(all[i] == left[i] && all[j] == right[j - left.len()]);
            }
        }
        assert forall|i: int| 0 <= i < all.len() implies (#[trigger] all[i]) is Relocate && all[i]->Relocate_from
            <= from.last() by {
            if i < left.len() {
                assert(all[i] == left[i]);
            } else {
                assert(all[i] == right[i - left.len()]);
            }
        }
    }
}

/// No legal action is listed twice.
pub proof fn lemma_legal_actions_distinct(state: GameState)
    ensures
        state.spec_legal_actions().no_duplicates(),
{
    lemma_squares_below(state.spec_destinations(), 64);
    lemma_squares_below(state.spec_sources(), 64);
    if state.winner is None {
        if state.reserve_of(state.turn) > 0 {
            let to = mask_squares(state.spec_destinations());
            let places = place_actions(to);
            assert forall|i: int, j: int| 0 <= i < j < places.len() implies places[i] != places[j] by {
                assert(places[i] == Action::Place { to: to[i] });
                assert(places[j] == Action::Place { to: to[j] });
            }
        } else {
            lemma_relocations_distinct(mask_squares(state.spec_sources()), mask_squares(state.spec_destinations()));
        }
    }
}

pub proof fn lemma_legal_action_shape(state: GameState, action: Action)
    requires
        state.spec_legal_actions().contains(action),
    ensures
        state.winner is None,
        has_bit(state.spec_destinations(), action.spec_destination() as int),
        match action {
            Action::Place { .. } => state.reserve_of(state.turn) > 0,
            Action::Relocate { from, .. } => state.reserve_of(state.turn) == 0 && has_bit(
                state.spec_sources(),
                from as int,
            ),
        },
{
    let legal = state.spec_legal_actions();
    let k = choose|k: int| 0 <= k < legal.len() && legal[k] == action;
    let dest = mask_squares(state.spec_destinations());
    lemma_squares_below(state.spec_destinations(), 64);
    lemma_squares_below(state.spec_sources(), 64);
    if state.reserve_of(state.turn) > 0 {
        assert(legal[k] == Action::Place { to: dest[k] });
    } else {
        lemma_relocation_actions_member(mask_squares(state.spec_sources()), dest, k);
    }
}

/// Sets the entry of `player` in a per-player reserve array.
fn set_reserve(reserve: [u8; 2], player: Player, value: u8) -> (r: [u8; 2])
    ensures
        r == (match player {
            Player::Light => [value, reserve[1]],
            Player::Dark => [reserve[0], value],
        }),
{
    match player {
        Player::Light => [value, reserve[1]],
        Player::Dark => [reserve[0], value],
    }
}

/// Sets the entry of `player` in a per-player marker array.
fn set_marker(markers: [Option<u8>; 2], player: Player, value: Option<u8>) -> (r: [Option<
    u8,
>; 2])
    ensures
        r == (match player {
            Player::Light => [value, markers[1]],
            Player::Dark => [markers[0], value],
        }),
{
    match player {
        Player::Light => [value, markers[1]],
        Player::Dark => [markers[0], value],
    }
}

/// Opponent pieces flanked by a piece of `player` arriving on `origin`.
pub fn captures_from(state: GameState, origin: u8, player: Player) -> (r: u64)
    requires
        MIN_BOARD_SIZE <= state.config.board_size <= MAX_BOARD_SIZE,
        origin < state.config.board_size * state.config.board_size,
    ensures
        r == state.spec_captures(origin, player),
        bit_count(r) <= 4,
{
    let board_size = state.config.board_size;
    let ghost size = board_size as int;
    proof {
        lemma_geometry(size, origin as int);
    }
    let opponent = state.pieces(player.other());
    let own = state.pieces(player);
    let row = origin / board_size;
    let column = origin % board_size;
    let up = if row >= 2 && test_bit(opponent, origin - board_size) && test_bit(
        own,
        origin - 2 * board_size,
    ) {
        bit(origin - board_size)
    } else {
        0
    };
    let down = if row + 2 < board_size && test_bit(opponent, origin + board_size) && test_bit(
        own,
        origin + 2 * board_size,
    ) {
        bit(origin + board_size)
    } else {
        0
    };
    let left = if column >= 2 && test_bit(opponent, origin - 1) && test_bit(own, origin - 2) {
        bit(origin - 1)
    } else {
        0
    };
    let right = if column + 2 < board_size && test_bit(opponent, origin + 1) && test_bit(
        own,
        origin + 2,
    ) {
        bit(origin + 1)
    } else {
        0
    };
    let captured = up | down | left | right;
    proof {
        assert(up == capture_ray(size, origin as int, opponent, own, 0));
        assert(down == capture_ray(size, origin as int, opponent, own, 1));
        assert(left == capture_ray(size, origin as int, opponent, own, 2));
        assert(right == capture_ray(size, origin as int, opponent, own, 3));
        lemma_count_below_or(up | down | left, right, 64);
        lemma_count_below_or(up | down, left, 64);
        lemma_count_below_or(up, down, 64);
        if row >= 2 {
            lemma_count_below_single(origin - size, 64);
        }
        if row + 2 < board_size {
            lemma_count_below_single(origin + size, 64);
        }
        if column >= 2 {
            lemma_count_below_single(origin - 1, 64);
        }
        if column + 2 < board_size {
            lemma_count_below_single(origin + 1, 64);
        }
        lemma_count_below_single(0, 64);
    }
    captured
}

impl GameState {
    pub fn board_at(self, square: u8) -> (r: Option<Player>)
        ensures
            r == (if has_bit(self.light, square as int) {
                Some(Player::Light)
            } else if has_bit(self.dark, square as int) {
                Some(Player::Dark)
            } else {
                None
            }),
    {
        if test_bit(self.light, square) {
            Some(Player::Light)
        } else if test_bit(self.dark, square) {
            Some(Player::Dark)
        } else {
            None
        }
    }

    fn destinations(self) -> (r: u64)
        requires
            self.config.board_size <= 8,
        ensures
            r == self.spec_destinations(),
    {
        self.config.full_board() & !(self.light | self.dark | self.forbidden)
    }

    fn sources(self) -> (r: u64)
        requires
            self.wf(),
        ensures
            r == self.spec_sources(),
    {
        let pieces = self.pieces(self.turn);
        match self.last_relocated_to[self.turn.index()] {
            Some(square) => pieces & !bit(square),
            None => pieces,
        }
    }

    /// The legal actions of the side to move, in canonical order.
    pub fn legal_actions(self) -> (r: Vec<Action>)
        requires
            self.wf(),
        ensures
            r@ == self.spec_legal_actions(),
    {
        if self.winner.is_some() {
            return Vec::new();
        }
        let destinations = bit_squares(self.destinations());
        let mut actions: Vec<Action> = Vec::new();
        if self.reserve[self.turn.index()] > 0 {
            let mut i: usize = 0;
            while i < destinations.len()
                invariant
                    i <= destinations@.len(),
                    actions@ == place_actions(destinations@.take(i as int)),
                decreases destinations@.len() - i,
            {
                proof {
                    lemma_place_actions_push(destinations@, i as int);
                }
                actions.push(Action::Place { to: destinations[i] });
                i = i + 1;
            }
            proof {
                assert(destinations@.take(destinations@.len() as int) =~= destinations@);
            }
            return actions;
        }
        let sources = bit_squares(self.sources());
        let mut i: usize = 0;
        while i < sources.len()
            invariant
                i <= sources@.len(),
                actions@ == relocation_actions(sources@.take(i as int), destinations@),
            decreases sources@.len() - i,
        {
            let from = sources[i];
            let mut j: usize = 0;
            while j < destinations.len()
                invariant
                    i < sources@.len(),
                    from == sources@[i as int],
                    j <= destinations@.len(),
                    actions@ == relocation_actions(sources@.take(i as int), destinations@)
                        + destinations@.take(j as int).map_values(
                        |t: u8| Action::Relocate { from, to: t },
                    ),
                decreases destinations@.len() - j,
            {
                proof {
                    assert(destinations@.take(j as int + 1).map_values(
                        |t: u8| Action::Relocate { from, to: t },
                    ) =~= destinations@.take(j as int).map_values(
                        |t: u8| Action::Relocate { from, to: t },
                    ).push(Action::Relocate { from, to: destinations@[j as int] }));
                }
                actions.push(Action::Relocate { from, to: destinations[j] });
                j = j + 1;
            }
            proof {
                assert(destinations@.take(j as int) =~= destinations@);
                assert(sources@.take(i as int + 1).drop_last() =~= sources@.take(i as int));
            }
            i = i + 1;
        }
        proof {
            assert(sources@.take(sources@.len() as int) =~= sources@);
        }
        actions
    }

    /// Count legal actions without materializing the action list.
    ///
    /// This is used by evaluators that only need mobility. Keeping it beside
    /// `legal_actions` makes the count share exactly the same rule boundary
    /// without paying for thousands of short-lived `Action` vectors.
    pub fn legal_action_count(self) -> (r: usize)
        requires
            self.wf(),
        ensures
            r == self.spec_legal_actions().len(),
    {
        if self.winner.is_some() {
            return 0;
        }
        let destination_count = popcount(self.destinations()) as usize;
        if self.reserve[self.turn.index()] > 0 {
            return destination_count;
        }
        let source_count = popcount(self.sources()) as usize;
        proof {
            lemma_relocation_actions_len(
                mask_squares(self.spec_sources()),
                mask_squares(self.spec_destinations()),
            );
            assert(source_count * destination_count <= 64 * 64) by (nonlinear_arith)
                requires
                    source_count <= 64,
                    destination_count <= 64,
            ;
        }
        source_count * destination_count
    }

    /// Apply an action after checking that it is legal.
    pub fn apply(self, action: Action) -> (r: Result<Transition, &'static str>)
        requires
            self.wf(),
            self.spec_legal_actions().contains(action) ==> self.room_to_move(),
        ensures
            r is Ok <==> self.spec_legal_actions().contains(action),
            r matches Ok(t) ==> t == self.spec_apply(action),
            r matches Err(e) ==> e@ == "illegal Pathagon action"@,
    {
        let legal = self.legal_actions();
        if !contains_action(&legal, action) {
            return Err("illegal Pathagon action");
        }
        Ok(self.apply_legal(action))
    }

    /// Apply an action already produced by `legal_actions`.
    pub fn apply_legal(self, action: Action) -> (r: Transition)
        requires
            self.wf(),
            self.spec_legal_actions().contains(action),
            self.room_to_move(),
        ensures
            r == self.spec_apply(action),
    {
        proof {
            lemma_legal_action_shape(self, action);
            lemma_cells(self.config.board_size as int);
            let d = action.spec_destination() as int;
            lemma_has_bit_and(
                self.config.spec_full_board(),
                !(self.light | self.dark | self.forbidden),
                d,
            );
        }
        let full = self.config.full_board();
        let player = self.turn;
        let opponent = player.other();
        let destination = action.destination();
        let mut state = self;
        match action {
            Action::Place { .. } => {
                state.reserve = set_reserve(
                    state.reserve,
                    player,
                    state.reserve[player.index()] - 1,
                );
                state.last_relocated_to = set_marker(state.last_relocated_to, player, None);
            },
            Action::Relocate { from, to } => {
                proof {
                    let p = self.spec_pieces(player);
                    match self.marker_of(player) {
                        Some(sq) => {
                            lemma_has_bit_and(p, !single(sq as int), from as int);
                        },
                        None => {},
                    }
                }
                let remaining = state.pieces(player) & !bit(from);
                match player {
                    Player::Light => state.light = remaining,
                    Player::Dark => state.dark = remaining,
                }
                state.last_relocated_to = set_marker(state.last_relocated_to, player, Some(to));
            },
        }
        let landed = state.pieces(player) | bit(destination);
        match player {
            Player::Light => state.light = landed,
            Player::Dark => state.dark = landed,
        }
        let captured = captures_from(state, destination, player);
        let survivors = state.pieces(opponent) & !captured;
        match opponent {
            Player::Light => state.light = survivors,
            Player::Dark => state.dark = survivors,
        }
        let count = popcount(captured) as u8;
        state.reserve = set_reserve(state.reserve, opponent, state.reserve[opponent.index()] + count);
        state.forbidden = captured;
        state.last_capture = count;
        state.last_player = Some(player);
        state.winner = if has_winning_path(state, player) {
            Some(player)
        } else {
            None
        };
        state.turn = opponent;
        state.ply = state.ply + 1;
        Transition { state, captured }
    }
}

/// Whether `actions` lists `action`.
pub fn contains_action(actions: &Vec<Action>, action: Action) -> (r: bool)
    ensures
        r == actions@.contains(action),
{
    let mut i: usize = 0;
    while i < actions.len()
        invariant
            i <= actions@.len(),
            forall|k: int| 0 <= k < i ==> actions@[k] != action,
        decreases actions@.len() - i,
    {
        if actions[i] == action {
            return true;
        }
        i = i + 1;
    }
    false
}

impl BoardConfig {
    pub fn from_contract(config: &GameConfig) -> (r: Result<Self, String>)
        ensures
            r is Ok <==> config.spec_valid(),
            r matches Ok(c) ==> c == (BoardConfig {
                board_size: config.board_size,
                reserve_per_player: config.reserve_per_player,
                max_plies: config.max_plies,
            }),
            r matches Err(e) ==> e@ == config.spec_error(),
    {
        match config.validate() {
            Ok(()) => {},
            Err(e) => {
                return Err(e);
            },
        }
        match Self::new(config.board_size, config.reserve_per_player) {
            Ok(c) => c.with_max_plies(config.max_plies),
            Err(e) => Err(e),
        }
    }
}

impl GameState {
    /// The opening position of a game with configuration `config`.
    pub open spec fn initial(config: BoardConfig) -> GameState {
        GameState {
            config,
            light: 0,
            dark: 0,
            reserve: [config.reserve_per_player, config.reserve_per_player],
            turn: Player::Light,
            forbidden: 0,
            last_relocated_to: [None, None],
            last_capture: 0,
            last_player: None,
            winner: None,
            ply: 0,
        }
    }

    pub fn new() -> (r: Self)
        ensures
            r == GameState::initial(
                BoardConfig { board_size: 7, reserve_per_player: 14, max_plies: 180 },
            ),
    {
        Self::with_config(BoardConfig::default())
    }

    /// The opening position on a `board_size` board with twice as many pieces
    /// a side as the board is wide.
    pub fn with_board_size(board_size: u8) -> (r: Self)
        requires
            MIN_BOARD_SIZE <= board_size <= MAX_BOARD_SIZE,
        ensures
            r == GameState::initial(
                BoardConfig {
                    board_size,
                    reserve_per_player: (2 * board_size) as u8,
                    max_plies: DEFAULT_MAX_PLIES,
                },
            ),
    {
        let reserve = board_size * 2;
        match BoardConfig::new(board_size, reserve) {
            Ok(config) => Self::with_config(config),
            Err(_) => {
                proof {
                    assert(false);
                }
                Self::with_config(BoardConfig::default())
            },
        }
    }

    pub fn with_config(config: BoardConfig) -> (r: Self)
        ensures
            r == GameState::initial(config),
    {
        Self {
            config,
            light: 0,
            dark: 0,
            reserve: [config.reserve_per_player, config.reserve_per_player],
            turn: Player::Light,
            forbidden: 0,
            last_relocated_to: [None, None],
            last_capture: 0,
            last_player: None,
            winner: None,
            ply: 0,
        }
    }
}

proof fn lemma_empty_count(n: nat)
    requires
        n <= 64,
    ensures
        count_below(0u64, n) == 0,
    decreases n,
{
    if n > 0 {
        lemma_empty_count((n - 1) as nat);
        lemma_has_bit_zero(n - 1);
    }
}

/// The opening position of a supported configuration keeps every piece
/// accounted for: all of them in reserve.
pub proof fn lemma_initial_inventory(config: BoardConfig)
    requires
        MIN_BOARD_SIZE <= config.board_size <= MAX_BOARD_SIZE,
        config.reserve_per_player <= 251,
    ensures
        GameState::initial(config).inventory_kept(),
        GameState::initial(config).inventory(Player::Light) == config.reserve_per_player,
        GameState::initial(config).inventory(Player::Dark) == config.reserve_per_player,
{
    lemma_empty_count(64);
}

impl Default for GameState {
    fn default() -> (r: Self)
        ensures
            r == GameState::initial(
                BoardConfig { board_size: 7, reserve_per_player: 14, max_plies: 180 },
            ),
    {
        Self::new()
    }
}

/// Squares of `board` (below `n`) that hold a piece of `who`.
pub open spec fn occupied_mask(board: Seq<Option<ContractPlayer>>, who: ContractPlayer, n: nat) -> u64
    decreases n,
{
    if n == 0 {
        0
    } else {
        let rest = occupied_mask(board, who, (n - 1) as nat);
        if board[n - 1] == Some(who) {
            rest | single(n - 1)
        } else {
            rest
        }
    }
}

/// The mask of the first `n` listed squares.
pub open spec fn listed_mask(squares: Seq<u8>, n: nat) -> u64
    decreases n,
{
    if n == 0 {
        0
    } else {
        listed_mask(squares, (n - 1) as nat) | single(squares[n - 1] as int)
    }
}

pub open spec fn player_of(player: ContractPlayer) -> Player {
    match player {
        ContractPlayer::Light => Player::Light,
        ContractPlayer::Dark => Player::Dark,
    }
}

/// The rule state that a seeded contract position describes.
pub open spec fn seeded_state(position: Position) -> GameState {
    GameState {
        config: BoardConfig {
            board_size: position.config.board_size,
            reserve_per_player: position.config.reserve_per_player,
            max_plies: position.config.max_plies,
        },
        light: occupied_mask(position.board@, ContractPlayer::Light, position.board@.len()),
        dark: occupied_mask(position.board@, ContractPlayer::Dark, position.board@.len()),
        reserve: [position.reserve.light as u8, position.reserve.dark as u8],
        turn: player_of(position.turn),
        forbidden: listed_mask(position.forbidden@, position.forbidden@.len()),
        last_relocated_to: [position.last_relocated_to.light, position.last_relocated_to.dark],
        last_capture: 0,
        last_player: None,
        winner: None,
        ply: position.ply,
    }
}

/// Pieces and reserves of a seeded position account for the fixed inventory,
/// and no piece stands on another or on a forbidden square.
pub open spec fn inventory_consistent(position: Position, state: GameState) -> bool {
    &&& position.reserve.light <= 255
    &&& position.reserve.dark <= 255
    &&& state.light & state.dark == 0
    &&& state.forbidden & (state.light | state.dark) == 0
    &&& bit_count(state.light) + position.reserve.light == position.config.reserve_per_player
    &&& bit_count(state.dark) + position.reserve.dark == position.config.reserve_per_player
}

/// The message of the first seeding check that fails after validation.
pub open spec fn seeding_error(state: GameState) -> Seq<char> {
    if state.spec_has_winning_path(Player::Light) || state.spec_has_winning_path(Player::Dark) {
        "seeded position must not contain an active winning path"@
    } else {
        "seeded position must have at least one legal action"@
    }
}

impl GameState {
    /// Seeds a rule state from a validated contract position.
    pub fn from_position(position: &Position) -> (r: Result<Self, String>)
        ensures
            r is Ok <==> {
                &&& position.spec_valid()
                &&& inventory_consistent(*position, seeded_state(*position))
                &&& !seeded_state(*position).spec_has_winning_path(Player::Light)
                &&& !seeded_state(*position).spec_has_winning_path(Player::Dark)
                &&& seeded_state(*position).spec_legal_actions().len() > 0
            },
            r matches Ok(s) ==> s == seeded_state(*position) && s.wf(),
            r matches Err(e) ==> position.spec_valid() && !inventory_consistent(
                *position,
                seeded_state(*position),
            ) ==> e@
                == "seeded position violates board, forbidden-square, or inventory invariants"@,
            r matches Err(e) ==> position.spec_valid() && inventory_consistent(
                *position,
                seeded_state(*position),
            ) ==> e@ == seeding_error(seeded_state(*position)),
    {
        match position.validate() {
            Ok(()) => {},
            Err(e) => {
                return Err(e);
            },
        }
        let config = match BoardConfig::from_contract(&position.config) {
            Ok(c) => c,
            Err(e) => {
                return Err(e);
            },
        };
        proof {
            lemma_cells(config.board_size as int);
        }
        let mut light: u64 = 0;
        let mut dark: u64 = 0;
        let mut square: usize = 0;
        while square < position.board.len()
            invariant
                square <= position.board@.len(),
                position.board@.len() <= 64,
                light == occupied_mask(position.board@, ContractPlayer::Light, square as nat),
                dark == occupied_mask(position.board@, ContractPlayer::Dark, square as nat),
            decreases position.board@.len() - square,
        {
            match position.board[square] {
                Some(ContractPlayer::Light) => {
                    light = light | bit(square as u8);
                },
                Some(ContractPlayer::Dark) => {
                    dark = dark | bit(square as u8);
                },
                None => {},
            }
            square = square + 1;
        }
        let mut forbidden: u64 = 0;
        let mut index: usize = 0;
        while index < position.forbidden.len()
            invariant
                index <= position.forbidden@.len(),
                forall|i: int|
                    0 <= i < position.forbidden@.len() ==> #[trigger] position.forbidden@[i]
                        < 64,
                forbidden == listed_mask(position.forbidden@, index as nat),
            decreases position.forbidden@.len() - index,
        {
            forbidden = forbidden | bit(position.forbidden[index]);
            index = index + 1;
        }
        let reserve_light = position.reserve.light;
        let reserve_dark = position.reserve.dark;
        let light_count = popcount(light) as u16;
        let dark_count = popcount(dark) as u16;
        if reserve_light > 255 || reserve_dark > 255 || light & dark != 0 || forbidden & (light
            | dark) != 0 || light_count + reserve_light != config.reserve_per_player as u16
            || dark_count + reserve_dark != config.reserve_per_player as u16 {
            return Err(
                String::from_str(
                    "seeded position violates board, forbidden-square, or inventory invariants",
                ),
            );
        }
        let state = Self {
            config,
            light,
            dark,
            reserve: [reserve_light as u8, reserve_dark as u8],
            turn: match position.turn {
                ContractPlayer::Light => Player::Light,
                ContractPlayer::Dark => Player::Dark,
            },
            forbidden,
            last_relocated_to: [position.last_relocated_to.light, position.last_relocated_to.dark],
            last_capture: 0,
            last_player: None,
            winner: None,
            ply: position.ply,
        };
        if has_winning_path(state, Player::Light) || has_winning_path(state, Player::Dark) {
            return Err(String::from_str("seeded position must not contain an active winning path"));
        }
        if state.legal_action_count() == 0 {
            return Err(String::from_str("seeded position must have at least one legal action"));
        }
        Ok(state)
    }
}

/// The square that the notation `bytes` names: a decimal byte below 64.
pub open spec fn spec_square(bytes: Seq<u8>) -> Option<u8> {
    match parse_u8_spec(bytes) {
        Some(value) => if value < 64 {
            Some(value)
        } else {
            None
        },
        None => None,
    }
}

/// Why `bytes` names no square.
pub open spec fn square_error(bytes: Seq<u8>) -> Seq<char> {
    match parse_u8_spec(bytes) {
        Some(value) => "square outside board: "@ + decimal_text(value as nat),
        None => "invalid square: "@ + decode_utf8(bytes),
    }
}

/// The action that the notation `P<to>` or `R<from>><to>` names.
pub open spec fn spec_parse_action(bytes: Seq<u8>) -> Option<Action> {
    if bytes.len() > 0 && bytes[0] == 80 {
        match spec_square(bytes.drop_first()) {
            Some(to) => Some(Action::Place { to }),
            None => None,
        }
    } else if bytes.len() > 0 && bytes[0] == 82 {
        let rest = bytes.drop_first();
        if exists|k: int| first_offset(rest, 62, k) {
            let k = choose|k: int| first_offset(rest, 62, k);
            match (spec_square(rest.take(k)), spec_square(rest.skip(k + 1))) {
                (Some(from), Some(to)) => Some(Action::Relocate { from, to }),
                _ => None,
            }
        } else {
            None
        }
    } else {
        None
    }
}

/// Why the notation `bytes` (spelling `text`) names no action.
pub open spec fn parse_action_error(text: Seq<char>, bytes: Seq<u8>) -> Seq<char> {
    if bytes.len() > 0 && bytes[0] == 80 {
        square_error(bytes.drop_first())
    } else if bytes.len() > 0 && bytes[0] == 82 {
        let rest = bytes.drop_first();
        if exists|k: int| first_offset(rest, 62, k) {
            let k = choose|k: int| first_offset(rest, 62, k);
            if spec_square(rest.take(k)) is None {
                square_error(rest.take(k))
            } else {
                square_error(rest.skip(k + 1))
            }
        } else {
            "invalid relocation: "@ + text
        }
    } else {
        "invalid action: "@ + text
    }
}

fn parse_square(text: &str) -> (r: Result<u8, String>)
    ensures
        r is Ok <==> spec_square(text.spec_bytes()) is Some,
        r matches Ok(v) ==> spec_square(text.spec_bytes()) == Some(v),
        r matches Err(e) ==> e@ == square_error(text.spec_bytes()),
{
    proof {
        lemma_text_of_bytes(text);
    }
    match parse_u8(text.as_bytes()) {
        None => Err(String::from_str("invalid square: ").concat(text)),
        Some(square) => {
            if square >= MAX_CELL_COUNT {
                Err(String::from_str("square outside board: ").concat(decimal_string(square).as_str()))
            } else {
                Ok(square)
            }
        },
    }
}

/// Reads the action notation `P<to>` (place) or `R<from>><to>` (relocate).
pub fn parse_action(text: &str) -> (r: Result<Action, String>)
    ensures
        r is Ok <==> spec_parse_action(text.spec_bytes()) is Some,
        r matches Ok(a) ==> spec_parse_action(text.spec_bytes()) == Some(a),
        r matches Err(e) ==> e@ == parse_action_error(text@, text.spec_bytes()),
{
    let bytes = text.as_bytes();
    if bytes.len() > 0 && bytes[0] == 80 {
        let rest = skip_ascii_char(text);
        return match parse_square(rest) {
            Ok(to) => Ok(Action::Place { to }),
            Err(e) => Err(e),
        };
    }
    if bytes.len() > 0 && bytes[0] == 82 {
        let rest = skip_ascii_char(text);
        let ghost rest_bytes = text.spec_bytes().drop_first();
        return match find_byte(rest.as_bytes(), 62) {
            None => {
                proof {
                    assert(!exists|k: int| first_offset(rest_bytes, 62, k));
                }
                Err(String::from_str("invalid relocation: ").concat(text))
            },
            Some(k) => {
                proof {
                    assert forall|j: int| first_offset(rest_bytes, 62, j) implies j == k by {
                        if j < k {
                            assert(rest_bytes[j] != 62);
                        }
                        if k < j {
                            assert(rest_bytes[k as int] != 62);
                        }
                    }
                }
                let (left, with_delimiter) = split_before_ascii(rest, k);
                let right = skip_ascii_char(with_delimiter);
                proof {
                    assert(right.spec_bytes() =~= rest_bytes.skip(k + 1));
                }
                match parse_square(left) {
                    Err(e) => Err(e),
                    Ok(from) => match parse_square(right) {
                        Err(e) => Err(e),
                        Ok(to) => Ok(Action::Relocate { from, to }),
                    },
                }
            },
        };
    }
    Err(String::from_str("invalid action: ").concat(text))
}

proof fn lemma_ascii_concat(a: Seq<char>, b: Seq<char>)
    ensures
        ascii_bytes(a + b) == ascii_bytes(a) + ascii_bytes(b),
        is_ascii_text(a) && is_ascii_text(b) ==> is_ascii_text(a + b),
{
    assert(ascii_bytes(a + b) =~= ascii_bytes(a) + ascii_bytes(b));
    if is_ascii_text(a) && is_ascii_text(b) {
        assert forall|i: int| 0 <= i < (a + b).len() implies (#[trigger] (a + b)[i]) as u32 <= 127 by {
            if i < a.len() {
                assert((a + b)[i] == a[i]);
            } else {
                assert((a + b)[i] == b[i - a.len()]);
            }
        }
    }
}

proof fn lemma_decimal_ascii(n: nat)
    requires
        n <= 255,
    ensures
        is_ascii_text(decimal_text(n)),
        spec_square(ascii_bytes(decimal_text(n))) == (if n < 64 { Some(n as u8) } else { None::<u8> }),
        forall|i: int| 0 <= i < ascii_bytes(decimal_text(n)).len() ==> is_digit(#[trigger] ascii_bytes(decimal_text(n))[i]),
        ascii_bytes(decimal_text(n)).len() >= 1,
{
    lemma_decimal_text(n);
    lemma_parse_decimal(n);
    assert forall|i: int| 0 <= i < decimal_text(n).len() implies (#[trigger] decimal_text(n)[i]) as u32 <= 127 by {
        assert(48 <= decimal_text(n)[i] as u32 <= 57);
    }
}

/// An action's notation reads back as that action: for every action whose
/// squares lie on the largest board, `parse_action` applied to the text that
/// `notation` writes gives the action again.
pub proof fn law_notation_round_trip(action: Action)
    requires
        match action {
            Action::Place { to } => to < MAX_CELL_COUNT,
            Action::Relocate { from, to } => from < MAX_CELL_COUNT && to < MAX_CELL_COUNT,
        },
    ensures
        spec_parse_action(encode_utf8(action.spec_notation())) == Some(action),
{
    reveal_strlit("P");
    reveal_strlit("R");
    reveal_strlit(">");
    let text = action.spec_notation();
    match action {
        Action::Place { to } => {
            let digits = decimal_text(to as nat);
            lemma_decimal_ascii(to as nat);
            lemma_ascii_concat("P"@, digits);
            lemma_encode_ascii(text);
            let bytes = ascii_bytes(text);
            assert(bytes[0] == 80);
            assert(bytes.drop_first() =~= ascii_bytes(digits));
        },
        Action::Relocate { from, to } => {
            let a = decimal_text(from as nat);
            let b = decimal_text(to as nat);
            lemma_decimal_ascii(from as nat);
            lemma_decimal_ascii(to as nat);
            lemma_ascii_concat("R"@, a);
            lemma_ascii_concat("R"@ + a, ">"@);
            lemma_ascii_concat("R"@ + a + ">"@, b);
            lemma_encode_ascii(text);
            let bytes = ascii_bytes(text);
            let head = ascii_bytes(a);
            let tail = ascii_bytes(b);
            let rest = bytes.drop_first();
            assert(bytes[0] == 82);
            assert(rest =~= head + seq![62u8] + tail);
            let k = head.len() as int;
            assert forall|j: int| 0 <= j < k implies rest[j] != 62 by {
                assert(rest[j] == head[j]);
                assert(is_digit(head[j]));
            }
            assert(first_offset(rest, 62, k));
            let c = choose|c: int| first_offset(rest, 62, c);
            assert(c == k) by {
                if c < k {
                    assert(rest[c] == head[c]);
                    assert(is_digit(head[c]));
                } else if c > k {
                    assert(rest[k] == 62);
                }
            }
            assert(rest.take(k) =~= head);
            assert(rest.skip(k + 1) =~= tail);
        },
    }
}

/// Every square on a closed set that contains the near edge lies on it.
proof fn lemma_closed_set_holds_chain(
    size: int,
    pieces: u64,
    player: Player,
    visited: u64,
    path: Seq<u8>,
    n: int,
)
    requires
        is_chain(size, pieces, player, path),
        0 <= n < path.len(),
        forall|j: int|
            has_bit(pieces, j) && on_near_edge(size, player, j) ==> has_bit(visited, j),
        forall|j: int, k: int|
            #![trigger adjacent(size, j, k)]
            has_bit(visited, j) && has_bit(pieces, k) && adjacent(size, j, k) ==> has_bit(
                visited,
                k,
            ),
    ensures
        has_bit(visited, path[n] as int),
    decreases n,
{
    if n > 0 {
        lemma_closed_set_holds_chain(size, pieces, player, visited, path, n - 1);
        let i = n - 1;
        assert(adjacent(size, path[i] as int, path[i + 1] as int));
    }
}

/// Breadth-first order: once the search has expanded `queue[..h]` without
/// meeting the far edge, no winning path is shorter than one more than the
/// depth of `queue[h]`. The walk follows `path` from its `i`-th square.
proof fn lemma_breadth_first_bound(
    size: int,
    pieces: u64,
    player: Player,
    visited: u64,
    queue: Seq<u8>,
    depth: Map<int, nat>,
    h: int,
    path: Seq<u8>,
    i: int,
)
    requires
        is_winning_path(size, pieces, player, path),
        0 <= h < queue.len(),
        0 <= i < path.len(),
        has_bit(visited, path[i] as int),
        depth[path[i] as int] <= i,
        forall|j: int|
            has_bit(visited, j) ==> exists|t: int| 0 <= t < queue.len() && queue[t] == j,
        forall|t1: int, t2: int|
            #![trigger queue[t1], queue[t2]]
            0 <= t1 <= t2 < queue.len() ==> depth[queue[t1] as int] <= depth[queue[t2] as int],
        forall|t: int, k: int|
            #![trigger adjacent(size, queue[t] as int, k)]
            0 <= t < h && has_bit(pieces, k) && adjacent(size, queue[t] as int, k) ==> has_bit(
                visited,
                k,
            ) && depth[k] <= depth[queue[t] as int] + 1,
        forall|t: int| 0 <= t < h ==> !on_far_edge(size, player, #[trigger] queue[t] as int),
    ensures
        depth[queue[h] as int] + 1 <= path.len(),
    decreases path.len() - i,
{
    let j = path[i] as int;
    let t = choose|t: int| 0 <= t < queue.len() && queue[t] == j;
    if t >= h {
        assert(depth[queue[h] as int] <= depth[queue[t] as int]);
    } else if i == path.len() - 1 {
        assert(!on_far_edge(size, player, queue[t] as int));
    } else {
        let k = path[i + 1] as int;
        assert(adjacent(size, path[i] as int, path[i + 1] as int));
        assert(has_bit(pieces, path[i + 1] as int));
        assert(adjacent(size, queue[t] as int, k));
        lemma_breadth_first_bound(size, pieces, player, visited, queue, depth, h, path, i + 1);
    }
}

/// The squares adjacent to some square of `frontier` (below `limit`).
fn spread(board_size: u8, frontier: u64) -> (r: u64)
    requires
        3 <= board_size <= 8,
        forall|j: int| has_bit(frontier, j) ==> j < board_size * board_size,
    ensures
        forall|k: int|
            has_bit(r, k) == exists|j: int|
                has_bit(frontier, j) && #[trigger] adjacent(board_size as int, j, k),
{
    let ghost size = board_size as int;
    proof {
        lemma_cells(size);
    }
    let cells = board_size * board_size;
    let mut next: u64 = 0;
    let mut square: u8 = 0;
    proof {
        assert forall|k: int| !has_bit(next, k) by {
            lemma_has_bit_zero(k);
        }
    }
    while square < cells
        invariant
            size == board_size,
            3 <= size <= 8,
            cells == size * size,
            cells <= 64,
            square <= cells,
            forall|k: int|
                has_bit(next, k) == exists|j: int|
                    0 <= j < square && has_bit(frontier, j) && #[trigger] adjacent(size, j, k),
        decreases cells - square,
    {
        let old_next = next;
        if test_bit(frontier, square) {
            let neighbors = neighbor_mask_for(board_size, square);
            next = next | neighbors;
            proof {
                assert forall|k: int|
                    has_bit(next, k) == exists|j: int|
                        0 <= j < square + 1 && has_bit(frontier, j) && #[trigger] adjacent(
                            size,
                            j,
                            k,
                        ) by {
                    lemma_has_bit_or(old_next, neighbors, k);
                    if has_bit(neighbors, k) {
                        assert(adjacent(size, square as int, k));
                    }
                }
            }
        } else {
            proof {
                assert forall|k: int|
                    has_bit(next, k) == exists|j: int|
                        0 <= j < square + 1 && has_bit(frontier, j) && #[trigger] adjacent(
                            size,
                            j,
                            k,
                        ) by {
                    if exists|j: int|
                        0 <= j < square + 1 && has_bit(frontier, j) && #[trigger] adjacent(
                            size,
                            j,
                            k,
                        ) {
                        let j = choose|j: int|
                            0 <= j < square + 1 && has_bit(frontier, j) && #[trigger] adjacent(
                                size,
                                j,
                                k,
                            );
                        assert(j != square);
                    }
                }
            }
        }
        square = square + 1;
    }
    proof {
        assert forall|k: int|
            has_bit(next, k) == exists|j: int|
                has_bit(frontier, j) && #[trigger] adjacent(size, j, k) by {
            if exists|j: int| has_bit(frontier, j) && #[trigger] adjacent(size, j, k) {
                let j = choose|j: int| has_bit(frontier, j) && #[trigger] adjacent(size, j, k);
                assert(0 <= j < square);
            }
        }
    }
    next
}

/// A shortest winning chain for `player`, from the near edge to the far edge,
/// or an empty list when the player's pieces do not connect the edges.
pub fn winning_path(state: GameState, player: Player) -> (r: Vec<u8>)
    requires
        MIN_BOARD_SIZE <= state.config.board_size <= MAX_BOARD_SIZE,
    ensures
        r@.len() > 0 <==> state.spec_has_winning_path(player),
        r@.len() > 0 ==> is_winning_path(
            state.config.board_size as int,
            state.spec_pieces(player),
            player,
            r@,
        ),
        r@.len() > 0 ==> forall|path: Seq<u8>|
            is_winning_path(
                state.config.board_size as int,
                state.spec_pieces(player),
                player,
                path,
            ) ==> r@.len() <= path.len(),
{
    let board_size = state.config.board_size;
    let ghost size = board_size as int;
    proof {
        lemma_cells(size);
    }
    let pieces = state.pieces(player);
    let near = edge_mask(board_size, player, false);
    let far = edge_mask(board_size, player, true);
    let starts = pieces & near;
    let mut queue = bit_squares(starts);
    let mut head: usize = 0;
    let mut visited = starts;
    let mut parent: Vec<Option<u8>> = Vec::new();
    while parent.len() < 64
        invariant
            parent@.len() <= 64,
            forall|k: int| 0 <= k < parent@.len() ==> parent@[k] is None,
        decreases 64 - parent@.len(),
    {
        parent.push(None);
    }
    let ghost mut depth: Map<int, nat> = Map::new(|j: int| has_bit(starts, j), |j: int| 0nat);
    proof {
        lemma_squares_below(starts, 64);
        assert forall|j: int| has_bit(starts, j) implies has_bit(pieces, j) && on_near_edge(
            size,
            player,
            j,
        ) by {
            lemma_has_bit_and(pieces, near, j);
        }
        assert forall|j: int|
            has_bit(pieces, j) && on_near_edge(size, player, j) implies has_bit(visited, j) by {
            lemma_has_bit_and(pieces, near, j);
        }
        assert forall|j: int| has_bit(visited, j) implies exists|t: int|
            0 <= t < queue@.len() && queue@[t] == j by {
            assert(queue@.contains(j as u8));
        }
    }
    while head < queue.len()
        invariant
            size == board_size,
            board_size == state.config.board_size,
            3 <= size <= 8,
            size * size <= 64,
            pieces == state.spec_pieces(player),
            forall|j: int| has_bit(far, j) == on_far_edge(size, player, j),
            parent@.len() == 64,
            head <= queue@.len(),
            queue@.len() == bit_count(visited),
            forall|t: int| 0 <= t < queue@.len() ==> has_bit(visited, #[trigger] queue@[t] as int),
            forall|j: int|
                has_bit(visited, j) ==> exists|t: int| 0 <= t < queue@.len() && queue@[t] == j,
            forall|j: int| has_bit(visited, j) ==> has_bit(pieces, j) && 0 <= j < size * size,
            forall|j: int|
                has_bit(pieces, j) && on_near_edge(size, player, j) ==> has_bit(visited, j),
            forall|j: int| has_bit(visited, j) ==> depth.dom().contains(j),
            forall|j: int|
                has_bit(visited, j) ==> match #[trigger] parent@[j] {
                    None => on_near_edge(size, player, j) && depth[j] == 0,
                    Some(q) => has_bit(visited, q as int) && adjacent(size, q as int, j)
                        && depth[q as int] + 1 == depth[j],
                },
            forall|t: int, k: int|
                #![trigger adjacent(size, queue@[t] as int, k)]
                0 <= t < head && has_bit(pieces, k) && adjacent(size, queue@[t] as int, k)
                    ==> has_bit(visited, k) && depth[k] <= depth[queue@[t] as int] + 1,
            forall|t: int| 0 <= t < head ==> !on_far_edge(size, player, #[trigger] queue@[t] as int),
            forall|j: int| has_bit(pieces, j) && on_near_edge(size, player, j) ==> depth[j] == 0,
            forall|t1: int, t2: int|
                #![trigger queue@[t1], queue@[t2]]
                0 <= t1 <= t2 < queue@.len() ==> depth[queue@[t1] as int]
                    <= depth[queue@[t2] as int],
            forall|t: int|
                0 <= t < queue@.len() ==> depth[#[trigger] queue@[t] as int] <= if head == 0 {
                    0
                } else {
                    depth[queue@[head - 1] as int] + 1
                },
        decreases 64 - head,
    {
        proof {
            lemma_squares_below(visited, 64);
        }
        let square = queue[head];
        head = head + 1;
        if test_bit(far, square) {
            let mut path: Vec<u8> = Vec::new();
            path.push(square);
            let mut cursor = square;
            while parent[cursor as usize].is_some()
                invariant
                    parent@.len() == 64,
                    path@.len() > 0,
                    path@[0] == square,
                    path@.last() == cursor,
                    has_bit(visited, cursor as int),
                    path@.len() + depth[cursor as int] == depth[square as int] + 1,
                    forall|i: int| 0 <= i < path@.len() ==> has_bit(pieces, #[trigger] path@[i] as int),
                    forall|i: int|
                        0 <= i < path@.len() - 1 ==> #[trigger] adjacent(
                            size,
                            path@[i + 1] as int,
                            path@[i] as int,
                        ),
                    forall|j: int| has_bit(visited, j) ==> has_bit(pieces, j) && 0 <= j < size * size,
                    forall|j: int| has_bit(visited, j) ==> depth.dom().contains(j),
                    forall|j: int|
                        has_bit(visited, j) ==> match #[trigger] parent@[j] {
                            None => on_near_edge(size, player, j) && depth[j] == 0,
                            Some(q) => has_bit(visited, q as int) && adjacent(size, q as int, j)
                                && depth[q as int] + 1 == depth[j],
                        },
                decreases depth[cursor as int],
            {
                let previous = parent[cursor as usize].unwrap();
                proof {
                    assert(parent@[cursor as int] == Some(previous));
                }
                path.push(previous);
                cursor = previous;
            }
            let mut result: Vec<u8> = Vec::new();
            let mut i = path.len();
            while i > 0
                invariant
                    i <= path@.len(),
                    result@.len() == path@.len() - i,
                    forall|t: int| 0 <= t < result@.len() ==> result@[t] == path@[path@.len() - 1 - t],
                decreases i,
            {
                i = i - 1;
                result.push(path[i]);
            }
            proof {
                let n = path@.len() as int;
                assert(parent@[cursor as int] is None);
                assert(on_near_edge(size, player, result@[0] as int));
                assert forall|t: int| 0 <= t < result@.len() implies has_bit(
                    pieces,
                    #[trigger] result@[t] as int,
                ) by {
                    assert(has_bit(pieces, path@[n - 1 - t] as int));
                }
                assert forall|t: int| 0 <= t < result@.len() - 1 implies #[trigger] adjacent(
                    size,
                    result@[t] as int,
                    result@[t + 1] as int,
                ) by {
                    let u = n - 2 - t;
                    assert(adjacent(size, path@[u + 1] as int, path@[u] as int));
                }
                assert(result@.last() == square);
                assert(is_winning_path(size, pieces, player, result@));
                assert(result@.len() == depth[square as int] + 1);
                assert forall|other: Seq<u8>|
                    is_winning_path(size, pieces, player, other) implies result@.len()
                    <= other.len() by {
                    assert(has_bit(pieces, other[0] as int));
                    lemma_breadth_first_bound(
                        size,
                        pieces,
                        player,
                        visited,
                        queue@,
                        depth,
                        head - 1,
                        other,
                        0,
                    );
                }
            }
            return result;
        }
        let neighbors = neighbor_mask_for(board_size, square);
        let fresh = neighbors & pieces & !visited;
        let additions = bit_squares(fresh);
        let ghost visited_before = visited;
        let ghost queue_before = queue@;
        let ghost depth_before = depth;
        let ghost parent_before = parent@;
        proof {
            lemma_squares_below(fresh, 64);
            assert forall|k: int|
                has_bit(fresh, k) == (adjacent(size, square as int, k) && has_bit(pieces, k)
                    && !has_bit(visited, k)) by {
                lemma_has_bit_and(neighbors & pieces, !visited, k);
                lemma_has_bit_and(neighbors, pieces, k);
                if 0 <= k < 64 {
                    lemma_has_bit_not(visited, k);
                }
            }
        }
        let mut a: usize = 0;
        while a < additions.len()
            invariant
                size == board_size,
                3 <= size <= 8,
                size * size <= 64,
                parent@.len() == 64,
                a <= additions@.len(),
                additions@ == mask_squares(fresh),
                queue@ == queue_before + additions@.take(a as int),
                queue@.len() == bit_count(visited),
                forall|k: int|
                    has_bit(visited, k) == (has_bit(visited_before, k) || (0 <= k < 64
                        && additions@.take(a as int).contains(k as u8))),
                forall|k: int|
                    has_bit(fresh, k) == (adjacent(size, square as int, k) && has_bit(pieces, k)
                        && !has_bit(visited_before, k)),
                forall|i: int|
                    0 <= i < additions@.len() ==> #[trigger] additions@[i] < 64 && has_bit(
                        fresh,
                        additions@[i] as int,
                    ),
                forall|x: int, y: int|
                    0 <= x < y < additions@.len() ==> #[trigger] additions@[x]
                        < #[trigger] additions@[y],
                depth_before.dom().contains(square as int),
                forall|j: int|
                    has_bit(visited_before, j) ==> depth.dom().contains(j) && depth[j]
                        == depth_before[j],
                forall|j: int|
                    has_bit(visited, j) && !has_bit(visited_before, j) ==> depth.dom().contains(j)
                        && depth[j] == depth_before[square as int] + 1 && parent@[j] == Some(
                        square,
                    ),
                forall|j: int|
                    0 <= j < 64 && has_bit(visited_before, j) ==> parent@[j] == parent_before[j],
            decreases additions@.len() - a,
        {
            let next = additions[a];
            proof {
                assert(!additions@.take(a as int).contains(next)) by {
                    if additions@.take(a as int).contains(next) {
                        let x = choose|x: int|
                            0 <= x < a && additions@.take(a as int)[x] == next;
                        assert(additions@[x] < additions@[a as int]);
                    }
                }
                assert(!has_bit(visited, next as int));
                lemma_count_below_add(visited, next as int, 64);
            }
            let old_visited = visited;
            visited = visited | bit(next);
            parent.set(next as usize, Some(square));
            queue.push(next);
            proof {
                depth = depth.insert(next as int, depth_before[square as int] + 1);
                assert(additions@.take(a as int + 1) =~= additions@.take(a as int).push(next));
                assert forall|k: int|
                    has_bit(visited, k) == (has_bit(visited_before, k) || (0 <= k < 64
                        && additions@.take(a as int + 1).contains(k as u8))) by {
                    lemma_has_bit_or(old_visited, single(next as int), k);
                    lemma_has_bit_single(next as int, k);
                    let grown = additions@.take(a as int).push(next);
                    assert(grown.contains(k as u8) == (additions@.take(a as int).contains(
                        k as u8,
                    ) || k as u8 == next)) by {
                        if grown.contains(k as u8) {
                            let x = choose|x: int| 0 <= x < grown.len() && grown[x] == k as u8;
                            if x < a {
                                assert(additions@.take(a as int)[x] == k as u8);
                            }
                        }
                        if additions@.take(a as int).contains(k as u8) {
                            let x = choose|x: int|
                                0 <= x < a && additions@.take(a as int)[x] == k as u8;
                            assert(grown[x] == k as u8);
                        }
                        if k as u8 == next {
                            assert(grown[a as int] == next);
                        }
                    }
                }
            }
            a = a + 1;
        }
        proof {
            assert(additions@.take(a as int) =~= additions@);
            assert forall|j: int| has_bit(visited, j) implies exists|t: int|
                0 <= t < queue@.len() && queue@[t] == j by {
                if has_bit(visited_before, j) {
                    let t = choose|t: int| 0 <= t < queue_before.len() && queue_before[t] == j;
                    assert(queue@[t] == j);
                } else {
                    let i = choose|i: int| 0 <= i < additions@.len() && additions@[i] == j as u8;
                    assert(queue@[queue_before.len() + i] == j);
                }
            }
            assert forall|t: int, k: int|
                #![trigger adjacent(size, queue@[t] as int, k)]
                0 <= t < head && has_bit(pieces, k) && adjacent(size, queue@[t] as int, k)
                    implies has_bit(visited, k) by {
                if t == head - 1 {
                    if !has_bit(visited_before, k) {
                        assert(has_bit(fresh, k));
                        assert(additions@.contains(k as u8));
                    }
                } else {
                    assert(queue@[t] == queue_before[t]);
                    assert(adjacent(size, queue_before[t] as int, k));
                }
            }
            assert forall|t: int| 0 <= t < head implies !on_far_edge(
                size,
                player,
                #[trigger] queue@[t] as int,
            ) by {
                if t < head - 1 {
                    assert(queue@[t] == queue_before[t]);
                }
            }
        }
    }
    proof {
        assert forall|j: int, k: int|
            #![trigger adjacent(size, j, k)]
            has_bit(visited, j) && has_bit(pieces, k) && adjacent(size, j, k) implies has_bit(
            visited,
            k,
        ) by {
            let t = choose|t: int| 0 <= t < queue@.len() && queue@[t] == j;
            assert(adjacent(size, queue@[t] as int, k));
        }
        if connects(size, pieces, player) {
            let path = choose|path: Seq<u8>| is_winning_path(size, pieces, player, path);
            lemma_closed_set_holds_chain(
                size,
                pieces,
                player,
                visited,
                path,
                path.len() - 1,
            );
            let j = path.last() as int;
            let t = choose|t: int| 0 <= t < queue@.len() && queue@[t] == j;
            assert(!on_far_edge(size, player, queue@[t] as int));
        }
    }
    Vec::new()
}

/// Whether `player`'s pieces connect the player's two edges.
pub fn has_winning_path(state: GameState, player: Player) -> (r: bool)
    requires
        MIN_BOARD_SIZE <= state.config.board_size <= MAX_BOARD_SIZE,
    ensures
        r == state.spec_has_winning_path(player),
{
    let board_size = state.config.board_size;
    let ghost size = board_size as int;
    proof {
        lemma_cells(size);
    }
    let pieces = state.pieces(player);
    let near = edge_mask(board_size, player, false);
    let far = edge_mask(board_size, player, true);
    let mut frontier = pieces & near;
    let mut visited = frontier;
    let ghost mut chains: Map<int, Seq<u8>> = Map::new(
        |j: int| has_bit(pieces & near, j),
        |j: int| seq![j as u8],
    );
    proof {
        assert forall|j: int| has_bit(frontier, j) implies has_bit(pieces, j) && on_near_edge(
            size,
            player,
            j,
        ) && is_chain(size, pieces, player, chains[j]) by {
            lemma_has_bit_and(pieces, near, j);
        }
        assert forall|j: int|
            has_bit(pieces, j) && on_near_edge(size, player, j) implies has_bit(visited, j) by {
            lemma_has_bit_and(pieces, near, j);
        }
    }
    while frontier != 0
        invariant
            size == board_size,
            board_size == state.config.board_size,
            3 <= size <= 8,
            size * size <= 64,
            pieces == state.spec_pieces(player),
            forall|j: int| has_bit(near, j) == on_near_edge(size, player, j),
            forall|j: int| has_bit(far, j) == on_far_edge(size, player, j),
            forall|j: int| has_bit(frontier, j) ==> has_bit(visited, j),
            forall|j: int| has_bit(visited, j) ==> has_bit(pieces, j) && 0 <= j < size * size,
            forall|j: int|
                has_bit(pieces, j) && on_near_edge(size, player, j) ==> has_bit(visited, j),
            forall|j: int|
                has_bit(visited, j) ==> chains.dom().contains(j) && is_chain(
                    size,
                    pieces,
                    player,
                    chains[j],
                ) && chains[j].last() == j as u8,
            forall|j: int, k: int|
                #![trigger adjacent(size, j, k)]
                has_bit(visited, j) && !has_bit(frontier, j) && has_bit(pieces, k) && adjacent(
                    size,
                    j,
                    k,
                ) ==> has_bit(visited, k),
            forall|j: int|
                has_bit(visited, j) && !has_bit(frontier, j) ==> !on_far_edge(size, player, j),
        decreases 2 * bit_count(!visited) + (if frontier != 0 {
            1int
        } else {
            0int
        }),
    {
        if frontier & far != 0 {
            proof {
                lemma_nonzero_has_bit(frontier & far);
                let j = choose|j: int| 0 <= j < 64 && has_bit(frontier & far, j);
                lemma_has_bit_and(frontier, far, j);
                assert(is_winning_path(size, pieces, player, chains[j]));
                assert(connects(size, pieces, player));
            }
            return true;
        }
        let next = spread(board_size, frontier);
        let fresh = next & pieces & !visited;
        let ghost old_visited = visited;
        let ghost old_frontier = frontier;
        proof {
            assert forall|k: int|
                has_bit(fresh, k) == (has_bit(next, k) && has_bit(pieces, k) && !has_bit(
                    visited,
                    k,
                )) by {
                lemma_has_bit_and(next & pieces, !visited, k);
                lemma_has_bit_and(next, pieces, k);
                if 0 <= k < 64 {
                    lemma_has_bit_not(visited, k);
                }
            }
            chains = Map::new(
                |k: int| has_bit(old_visited, k) || has_bit(fresh, k),
                |k: int|
                    if has_bit(old_visited, k) {
                        chains[k]
                    } else {
                        let j = choose|j: int|
                            has_bit(old_frontier, j) && #[trigger] adjacent(size, j, k);
                        chains[j].push(k as u8)
                    },
            );
        }
        visited = visited | fresh;
        frontier = fresh;
        proof {
            assert forall|j: int|
                has_bit(visited, j) == (has_bit(old_visited, j) || has_bit(fresh, j)) by {
                lemma_has_bit_or(old_visited, fresh, j);
            }
            assert forall|j: int| has_bit(visited, j) implies chains.dom().contains(j)
                && is_chain(size, pieces, player, chains[j]) && chains[j].last() == j as u8 by {
                if !has_bit(old_visited, j) {
                    let i = choose|i: int| has_bit(old_frontier, i) && #[trigger] adjacent(size, i, j);
                    let c = chains[i];
                    assert(c.last() == i as u8);
                    let d = c.push(j as u8);
                    assert forall|t: int| 0 <= t < d.len() - 1 implies #[trigger] adjacent(
                        size,
                        d[t] as int,
                        d[t + 1] as int,
                    ) by {
                        if t < c.len() - 1 {
                            assert(adjacent(size, c[t] as int, c[t + 1] as int));
                        }
                    }
                    assert forall|t: int| 0 <= t < d.len() implies has_bit(
                        pieces,
                        #[trigger] d[t] as int,
                    ) by {
                        if t < c.len() {
                            assert(has_bit(pieces, c[t] as int));
                        }
                    }
                }
            }
            assert forall|j: int, k: int|
                #![trigger adjacent(size, j, k)]
                has_bit(visited, j) && !has_bit(frontier, j) && has_bit(pieces, k) && adjacent(
                    size,
                    j,
                    k,
                ) implies has_bit(visited, k) by {
                if has_bit(old_frontier, j) {
                    assert(has_bit(next, k));
                }
            }
            assert forall|j: int|
                has_bit(visited, j) && !has_bit(frontier, j) implies !on_far_edge(
                size,
                player,
                j,
            ) by {
                if has_bit(old_frontier, j) {
                    lemma_has_bit_and(old_frontier, far, j);
                    lemma_has_bit_zero(j);
                }
            }
            assert forall|i: int| 0 <= i < 64 && has_bit(!visited, i) implies has_bit(
                !old_visited,
                i,
            ) by {
                lemma_has_bit_not(visited, i);
                lemma_has_bit_not(old_visited, i);
            }
            lemma_count_below_subset(!visited, !old_visited, 64);
            if frontier != 0 {
                lemma_nonzero_has_bit(frontier);
                let k = choose|k: int| 0 <= k < 64 && has_bit(frontier, k);
                lemma_has_bit_not(visited, k);
                lemma_has_bit_not(old_visited, k);
                assert(has_bit(!old_visited, k) && !has_bit(!visited, k));
            }
        }
    }
    proof {
        assert forall|j: int| !has_bit(frontier, j) by {
            lemma_has_bit_zero(j);
        }
        if connects(size, pieces, player) {
            let path = choose|path: Seq<u8>| is_winning_path(size, pieces, player, path);
            lemma_closed_set_holds_chain(
                size,
                pieces,
                player,
                visited,
                path,
                path.len() - 1,
            );
        }
    }
    false
}

} // verus!
