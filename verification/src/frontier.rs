//! Endgame frontiers: replaying recorded games, and the constructive
//! predecessors of a won position, each checked by replaying the winner's
//! last move.

use vstd::prelude::*;

use crate::bitboard::{
    bit, bit_count, bit_squares, has_bit, lemma_has_bit_and, lemma_has_bit_low, lemma_has_bit_max,
    mask_squares, popcount, single,
};
use crate::golden::{canonical_key_of, canonical_position_key, markers_on_board};
use crate::ground_truth::{same_position, same_position_exec};
use crate::rules::{
    contains_action, has_winning_path, law_play_keeps_inventory, Action, BoardConfig, GameState,
    Player,
};
use crate::text::{decimal_string_u64, decimal_text};

verus! {

/// Whether `parent` is a verified predecessor of `terminal` by `action`:
/// no path stands on it, the action is legal there, and playing it gives
/// exactly `terminal`.
pub open spec fn predecessor_ok(parent: GameState, action: Action, terminal: GameState) -> bool {
    &&& !parent.spec_has_winning_path(Player::Light)
    &&& !parent.spec_has_winning_path(Player::Dark)
    &&& parent.spec_legal_actions().contains(action)
    &&& same_position(parent.spec_apply(action).state, terminal)
}

/// Checks a candidate predecessor by replaying the action.
pub fn parent_has_valid_transition(parent: GameState, action: Action, terminal: GameState) -> (r: bool)
    requires
        parent.wf(),
        parent.room_to_move(),
    ensures
        r == predecessor_ok(parent, action, terminal),
{
    if has_winning_path(parent, Player::Light) || has_winning_path(parent, Player::Dark) {
        return false;
    }
    let legal = parent.legal_actions();
    if !contains_action(&legal, action) {
        return false;
    }
    let child = parent.apply_legal(action).state;
    same_position_exec(&child, &terminal)
}

/// A position before the winner's last move into `terminal`: `mover` to
/// move, no piece forbidden, no capture or winner yet, one ply earlier.
pub open spec fn parent_of(
    terminal: GameState,
    mover: Player,
    mover_pieces: u64,
    opponent_pieces: u64,
    reserve: [u8; 2],
    markers: [Option<u8>; 2],
) -> GameState {
    GameState {
        config: terminal.config,
        light: match mover {
            Player::Light => mover_pieces,
            Player::Dark => opponent_pieces,
        },
        dark: match mover {
            Player::Light => opponent_pieces,
            Player::Dark => mover_pieces,
        },
        reserve,
        turn: mover,
        forbidden: 0,
        last_relocated_to: markers,
        last_capture: 0,
        last_player: None,
        winner: None,
        ply: if terminal.ply > 0 {
            (terminal.ply - 1) as u16
        } else {
            0
        },
    }
}

/// The parent that `candidate_parent` tries: `mover`'s pieces without the
/// action's destination, the given opponent pieces, reserves and markers.
pub open spec fn placed_parent(
    terminal: GameState,
    mover: Player,
    opponent_pieces: u64,
    reserve: [u8; 2],
    markers: [Option<u8>; 2],
    action: Action,
) -> GameState {
    parent_of(
        terminal,
        mover,
        terminal.spec_pieces(mover) & !single(action.spec_destination() as int),
        opponent_pieces,
        reserve,
        markers,
    )
}

/// The parent position before `mover` played `action` into `terminal`,
/// when replaying the action confirms it.
pub fn candidate_parent(
    terminal: GameState,
    mover: Player,
    opponent_pieces: u64,
    reserve: [u8; 2],
    last_relocated_to: [Option<u8>; 2],
    action: Action,
) -> (r: Option<GameState>)
    requires
        3 <= terminal.config.board_size <= 8,
        last_relocated_to[0] matches Some(sq) ==> sq < 64,
        last_relocated_to[1] matches Some(sq) ==> sq < 64,
        reserve[mover.opponent().slot()] <= 251,
        action.spec_destination() < 64,
    ensures
        r matches Some(parent) ==> predecessor_ok(parent, action, terminal) && parent.turn == mover
            && parent.forbidden == 0,
        r is Some <==> predecessor_ok(
            placed_parent(terminal, mover, opponent_pieces, reserve, last_relocated_to, action),
            action,
            terminal,
        ),
        r matches Some(parent) ==> parent == placed_parent(
            terminal,
            mover,
            opponent_pieces,
            reserve,
            last_relocated_to,
            action,
        ),
{
    let to = action.destination();
    let mover_pieces = terminal.pieces(mover) & !bit(to);
    let (light, dark) = match mover {
        Player::Light => (mover_pieces, opponent_pieces),
        Player::Dark => (opponent_pieces, mover_pieces),
    };
    let parent = GameState {
        config: terminal.config,
        light,
        dark,
        reserve,
        turn: mover,
        forbidden: 0,
        last_relocated_to,
        last_capture: 0,
        last_player: None,
        winner: None,
        ply: if terminal.ply > 0 {
            terminal.ply - 1
        } else {
            0
        },
    };
    assert(parent == placed_parent(terminal, mover, opponent_pieces, reserve, last_relocated_to, action));
    if parent_has_valid_transition(parent, action, terminal) {
        Some(parent)
    } else {
        None
    }
}

/// The side whose last move won `terminal`.
pub open spec fn last_mover(terminal: GameState) -> Player {
    terminal.winner.unwrap()
}

/// The loser's reserve once its captured pieces are back in it.
pub open spec fn loser_reserve(terminal: GameState) -> int {
    terminal.reserve_of(last_mover(terminal).opponent()) - bit_count(terminal.forbidden)
}

/// The winner moved last into `terminal`, and the loser's reserve can take
/// its captured pieces back.
pub open spec fn won_by_last_move(terminal: GameState) -> bool {
    &&& terminal.winner is Some
    &&& terminal.turn == last_mover(terminal).opponent()
    &&& loser_reserve(terminal) >= 0
}

/// The reserves before the last move, with the loser's captures returned.
pub open spec fn base_reserves(terminal: GameState) -> [u8; 2] {
    let left = loser_reserve(terminal) as u8;
    match last_mover(terminal).opponent() {
        Player::Light => [left, terminal.reserve[1]],
        Player::Dark => [terminal.reserve[0], left],
    }
}

/// The markers before the last move: the winner's cleared.
pub open spec fn parent_markers(terminal: GameState) -> [Option<u8>; 2] {
    match last_mover(terminal) {
        Player::Light => [None, terminal.last_relocated_to[1]],
        Player::Dark => [terminal.last_relocated_to[0], None],
    }
}

/// The winner's reserve before a winning placement.
pub open spec fn raised_reserve(terminal: GameState) -> int {
    let own = base_reserves(terminal)[last_mover(terminal).slot()];
    if own < 255 {
        own + 1
    } else {
        255
    }
}

/// The reserves before a winning placement.
pub open spec fn placement_reserves(terminal: GameState) -> [u8; 2] {
    let base = base_reserves(terminal);
    match last_mover(terminal) {
        Player::Light => [raised_reserve(terminal) as u8, base[1]],
        Player::Dark => [base[0], raised_reserve(terminal) as u8],
    }
}

/// The candidate predecessor in which the winner placed onto `to`.
pub open spec fn placement_candidate(terminal: GameState, to: u8) -> (GameState, Action) {
    let w = last_mover(terminal);
    let action = Action::Place { to };
    (
        placed_parent(
            terminal,
            w,
            terminal.spec_pieces(w.opponent()) | terminal.forbidden,
            placement_reserves(terminal),
            parent_markers(terminal),
            action,
        ),
        action,
    )
}

/// The square the winner relocated onto last.
pub open spec fn relocated_onto(terminal: GameState) -> u8 {
    terminal.last_relocated_to[last_mover(terminal).slot()].unwrap()
}

/// The squares a winning relocation could have come from: empty after the
/// move, other than its destination.
pub open spec fn relocation_sources(terminal: GameState) -> u64 {
    terminal.config.spec_full_board() & !(terminal.light | terminal.dark | terminal.forbidden) & !single(
        relocated_onto(terminal) as int,
    )
}

/// The candidate predecessor in which the winner relocated from `from`.
pub open spec fn relocation_candidate(terminal: GameState, from: u8) -> (GameState, Action) {
    let w = last_mover(terminal);
    let to = relocated_onto(terminal);
    (
        parent_of(
            terminal,
            w,
            (terminal.spec_pieces(w) & !single(to as int)) | single(from as int),
            terminal.spec_pieces(w.opponent()),
            base_reserves(terminal),
            parent_markers(terminal),
        ),
        Action::Relocate { from, to },
    )
}

/// The predecessors of a won position that the winner's last move could
/// have come from: placements onto any of the winner's squares when the
/// winner did not relocate last, else relocations onto the marked square
/// from every square empty after the move. Each is kept only when
/// replaying its action gives the position back; the list is not claimed
/// to be complete.
pub fn constructive_predecessors(terminal: GameState) -> (r: Vec<(GameState, Action)>)
    requires
        terminal.inventory_kept(),
    ensures
        forall|i: int| 0 <= i < r@.len() ==> predecessor_ok(#[trigger] r@[i].0, r@[i].1, terminal),
        forall|i: int| 0 <= i < r@.len() ==> terminal.winner == Some(#[trigger] r@[i].0.turn)
            && r@[i].0.forbidden == 0,
        !(terminal.winner matches Some(w) && terminal.turn == w.opponent()) ==> r@.len() == 0,
        forall|i: int| 0 <= i < r@.len() ==> match terminal.last_relocated_to[terminal.turn.opponent().slot()] {
            None => (#[trigger] r@[i].1) is Place,
            Some(to) => ((#[trigger] r@[i].1) matches Action::Relocate { to: t, .. } && t == to),
        },
        won_by_last_move(terminal) && terminal.last_relocated_to[last_mover(terminal).slot()] is None
            && raised_reserve(terminal) <= terminal.config.reserve_per_player ==> forall|to: u8|
            mask_squares(terminal.spec_pieces(last_mover(terminal))).contains(to) && predecessor_ok(
                placement_candidate(terminal, to).0,
                placement_candidate(terminal, to).1,
                terminal,
            ) ==> r@.contains(#[trigger] placement_candidate(terminal, to)),
        won_by_last_move(terminal) && terminal.last_relocated_to[last_mover(terminal).slot()] is Some
            ==> forall|from: u8|
            mask_squares(relocation_sources(terminal)).contains(from) && predecessor_ok(
                relocation_candidate(terminal, from).0,
                relocation_candidate(terminal, from).1,
                terminal,
            ) ==> r@.contains(#[trigger] relocation_candidate(terminal, from)),
{
    let winner = match terminal.winner {
        Some(w) => w,
        None => {
            return Vec::new();
        },
    };
    if terminal.turn != winner.other() {
        return Vec::new();
    }
    let mover = winner;
    let opponent = mover.other();
    let captured = terminal.forbidden;
    let captured_count = popcount(captured);
    let opponent_reserve = terminal.reserve[opponent.index()];
    if (opponent_reserve as u32) < captured_count {
        return Vec::new();
    }
    let left = opponent_reserve - captured_count as u8;
    let reserve: [u8; 2] = match opponent {
        Player::Light => [left, terminal.reserve[1]],
        Player::Dark => [terminal.reserve[0], left],
    };
    let opponent_pieces = terminal.pieces(opponent) | captured;
    let mut output: Vec<(GameState, Action)> = Vec::new();
    proof {
        assert(terminal.reserve_of(opponent) <= 251) by {
            assert(terminal.inventory(opponent) <= 251);
        }
        assert(won_by_last_move(terminal));
        assert(reserve == base_reserves(terminal));
    }
    match terminal.last_relocated_to[mover.index()] {
        None => {
            let own = reserve[mover.index()];
            let raised = if own < 255 {
                own + 1
            } else {
                255
            };
            let reserve: [u8; 2] = match mover {
                Player::Light => [raised, reserve[1]],
                Player::Dark => [reserve[0], raised],
            };
            if raised <= terminal.config.reserve_per_player {
                let squares = bit_squares(terminal.pieces(mover));
                let markers: [Option<u8>; 2] = match mover {
                    Player::Light => [None, terminal.last_relocated_to[1]],
                    Player::Dark => [terminal.last_relocated_to[0], None],
                };
                let mut i: usize = 0;
                while i < squares.len()
                    invariant
                        i <= squares@.len(),
                        squares@ == mask_squares(terminal.spec_pieces(mover)),
                        terminal.inventory_kept(),
                        terminal.winner == Some(mover),
                        terminal.turn == mover.opponent(),
                        terminal.last_relocated_to[mover.slot()] is None,
                        markers[0] matches Some(sq) ==> sq < 64,
                        markers[1] matches Some(sq) ==> sq < 64,
                        reserve[mover.opponent().slot()] <= 251,
                        forall|j: int| 0 <= j < output@.len() ==> predecessor_ok(#[trigger] output@[j].0, output@[j].1, terminal),
                        forall|j: int| 0 <= j < output@.len() ==> terminal.winner == Some(#[trigger] output@[j].0.turn)
                            && output@[j].0.forbidden == 0,
                        forall|j: int| 0 <= j < output@.len() ==> (#[trigger] output@[j].1) is Place,
                        mover == last_mover(terminal),
                        reserve == placement_reserves(terminal),
                        markers == parent_markers(terminal),
                        opponent_pieces == terminal.spec_pieces(mover.opponent()) | terminal.forbidden,
                        forall|j: int|
                            0 <= j < i && predecessor_ok(
                                placement_candidate(terminal, squares@[j]).0,
                                placement_candidate(terminal, squares@[j]).1,
                                terminal,
                            ) ==> output@.contains(#[trigger] placement_candidate(terminal, squares@[j])),
                    decreases squares@.len() - i,
                {
                    let to = squares[i];
                    proof {
                        crate::bitboard::lemma_squares_below(terminal.spec_pieces(mover), 64);
                    }
                    let action = Action::Place { to };
                    let ghost before = output@;
                    match candidate_parent(terminal, mover, opponent_pieces, reserve, markers, action) {
                        Some(parent) => {
                            output.push((parent, action));
                            assert(output@[output@.len() - 1] == placement_candidate(terminal, to));
                        },
                        None => {},
                    }
                    proof {
                        assert forall|j: int|
                            0 <= j < i + 1 && predecessor_ok(
                                placement_candidate(terminal, squares@[j]).0,
                                placement_candidate(terminal, squares@[j]).1,
                                terminal,
                            ) implies output@.contains(#[trigger] placement_candidate(terminal, squares@[j])) by {
                            if j < i {
                                let w = choose|w: int| 0 <= w < before.len() && before[w] == placement_candidate(terminal, squares@[j]);
                                assert(output@[w] == before[w]);
                            }
                        }
                    }
                    i = i + 1;
                }
                proof {
                    assert forall|t: u8|
                        mask_squares(terminal.spec_pieces(last_mover(terminal))).contains(t) && predecessor_ok(
                            placement_candidate(terminal, t).0,
                            placement_candidate(terminal, t).1,
                            terminal,
                        ) implies output@.contains(#[trigger] placement_candidate(terminal, t)) by {
                        let j = choose|j: int| 0 <= j < squares@.len() && squares@[j] == t;
                    }
                }
            }
        },
        Some(to) => {
            let empty_in_child = terminal.config.full_board() & !(terminal.light | terminal.dark
                | terminal.forbidden);
            let sources = bit_squares(empty_in_child & !bit(to));
            let markers: [Option<u8>; 2] = match mover {
                Player::Light => [None, terminal.last_relocated_to[1]],
                Player::Dark => [terminal.last_relocated_to[0], None],
            };
            let mut i: usize = 0;
            while i < sources.len()
                invariant
                    i <= sources@.len(),
                    sources@ == mask_squares(empty_in_child & !single(to as int)),
                    terminal.inventory_kept(),
                    terminal.winner == Some(mover),
                    terminal.turn == mover.opponent(),
                    terminal.last_relocated_to[mover.slot()] == Some(to),
                    to < 64,
                    markers[0] matches Some(sq) ==> sq < 64,
                    markers[1] matches Some(sq) ==> sq < 64,
                    reserve[mover.opponent().slot()] <= 251,
                    forall|j: int| 0 <= j < output@.len() ==> predecessor_ok(#[trigger] output@[j].0, output@[j].1, terminal),
                    forall|j: int| 0 <= j < output@.len() ==> terminal.winner == Some(#[trigger] output@[j].0.turn)
                        && output@[j].0.forbidden == 0,
                    forall|j: int| 0 <= j < output@.len() ==> ((#[trigger] output@[j].1) matches Action::Relocate { to: t, .. } && t == to),
                    mover == last_mover(terminal),
                    to == relocated_onto(terminal),
                    reserve == base_reserves(terminal),
                    markers == parent_markers(terminal),
                    empty_in_child & !single(to as int) == relocation_sources(terminal),
                    forall|j: int|
                        0 <= j < i && predecessor_ok(
                            relocation_candidate(terminal, sources@[j]).0,
                            relocation_candidate(terminal, sources@[j]).1,
                            terminal,
                        ) ==> output@.contains(#[trigger] relocation_candidate(terminal, sources@[j])),
                decreases sources@.len() - i,
            {
                let ghost before = output@;
                let from = sources[i];
                proof {
                    crate::bitboard::lemma_squares_below(empty_in_child & !single(to as int), 64);
                }
                let parent_mover = (terminal.pieces(mover) & !bit(to)) | bit(from);
                let (light, dark) = match mover {
                    Player::Light => (parent_mover, terminal.dark),
                    Player::Dark => (terminal.light, parent_mover),
                };
                let parent = GameState {
                    config: terminal.config,
                    light,
                    dark,
                    reserve,
                    turn: mover,
                    forbidden: 0,
                    last_relocated_to: markers,
                    last_capture: 0,
                    last_player: None,
                    winner: None,
                    ply: if terminal.ply > 0 {
                        terminal.ply - 1
                    } else {
                        0
                    },
                };
                let action = Action::Relocate { from, to };
                assert((parent, action) == relocation_candidate(terminal, from));
                if parent_has_valid_transition(parent, action, terminal) {
                    output.push((parent, action));
                }
                proof {
                    assert forall|j: int|
                        0 <= j < i + 1 && predecessor_ok(
                            relocation_candidate(terminal, sources@[j]).0,
                            relocation_candidate(terminal, sources@[j]).1,
                            terminal,
                        ) implies output@.contains(#[trigger] relocation_candidate(terminal, sources@[j])) by {
                        if j < i {
                            let w = choose|w: int| 0 <= w < before.len() && before[w] == relocation_candidate(terminal, sources@[j]);
                            assert(output@[w] == before[w]);
                        } else {
                            assert(output@[output@.len() - 1] == relocation_candidate(terminal, sources@[j]));
                        }
                    }
                }
                i = i + 1;
            }
            proof {
                assert forall|f: u8|
                    mask_squares(relocation_sources(terminal)).contains(f) && predecessor_ok(
                        relocation_candidate(terminal, f).0,
                        relocation_candidate(terminal, f).1,
                        terminal,
                    ) implies output@.contains(#[trigger] relocation_candidate(terminal, f)) by {
                    let j = choose|j: int| 0 <= j < sources@.len() && sources@[j] == f;
                }
            }
        },
    }
    output
}


/// The position after playing the first `n` of `actions` from `start`.
pub open spec fn played(start: GameState, actions: Seq<Action>, n: nat) -> GameState
    decreases n,
{
    if n == 0 {
        start
    } else {
        played(start, actions, (n - 1) as nat).spec_apply(actions[n - 1]).state
    }
}

/// Whether action `i` can be played: its position is not won and the
/// action is legal there.
pub open spec fn playable_at(start: GameState, actions: Seq<Action>, i: int) -> bool {
    &&& played(start, actions, i as nat).winner is None
    &&& played(start, actions, i as nat).spec_legal_actions().contains(actions[i])
}

/// The first of the first `n` actions that cannot be played, if any.
pub open spec fn first_unplayable(start: GameState, actions: Seq<Action>, n: nat) -> Option<int>
    decreases n,
{
    if n == 0 {
        None
    } else {
        match first_unplayable(start, actions, (n - 1) as nat) {
            Some(i) => Some(i),
            None => if playable_at(start, actions, n - 1) {
                None
            } else {
                Some(n - 1)
            },
        }
    }
}

/// Why action `i` cannot be played.
pub open spec fn replay_error(start: GameState, actions: Seq<Action>, i: int) -> Seq<char> {
    let state = played(start, actions, i as nat);
    if state.winner is Some {
        "action "@ + decimal_text(i as nat) + " follows a terminal state"@
    } else {
        "illegal action "@ + actions[i].spec_notation() + " at ply "@ + decimal_text(state.ply as nat)
    }
}

proof fn lemma_first_unplayable(start: GameState, actions: Seq<Action>, n: nat)
    ensures
        first_unplayable(start, actions, n) is None <==> forall|i: int| 0 <= i < n ==> #[trigger] playable_at(start, actions, i),
        first_unplayable(start, actions, n) matches Some(k) ==> 0 <= k < n && !playable_at(start, actions, k),
    decreases n,
{
    if n > 0 {
        lemma_first_unplayable(start, actions, (n - 1) as nat);
    }
}

/// Replays `actions` from the opening position of `config`: every position
/// visited, and the final one when it is won. An action after a won
/// position, or an illegal one, is refused.
pub fn replay(actions: &[Action], config: BoardConfig) -> (r: Result<(Vec<GameState>, Option<GameState>), String>)
    requires
        config.valid(),
        actions@.len() < u16::MAX,
    ensures
        ({
            let start = GameState::initial(config);
            let n = actions@.len();
            match first_unplayable(start, actions@, n as nat) {
                None => r matches Ok((states, last)) && states@.len() == n + 1 && (forall|i: int|
                    0 <= i <= n ==> #[trigger] states@[i] == played(start, actions@, i as nat))
                    && last == (if played(start, actions@, n as nat).winner is Some {
                    Some(played(start, actions@, n as nat))
                } else {
                    None
                }),
                Some(k) => r matches Err(e) && e@ == replay_error(start, actions@, k),
            }
        }),
{
    let mut state = GameState::with_config(config);
    let ghost start = state;
    let mut states: Vec<GameState> = Vec::new();
    states.push(state);
    proof {
        crate::rules::lemma_initial_inventory(config);
    }
    let mut index: usize = 0;
    while index < actions.len()
        invariant
            index <= actions@.len() < u16::MAX,
            start == GameState::initial(config),
            state == played(start, actions@, index as nat),
            state.inventory_kept(),
            state.ply == index,
            states@.len() == index + 1,
            forall|i: int| 0 <= i <= index ==> #[trigger] states@[i] == played(start, actions@, i as nat),
            first_unplayable(start, actions@, index as nat) is None,
        decreases actions@.len() - index,
    {
        let action = actions[index];
        if state.winner.is_some() {
            proof {
                assert(first_unplayable(start, actions@, (index + 1) as nat) == Some(index as int));
                lemma_first_more(start, actions@, (index + 1) as nat, actions@.len() as nat);
            }
            let message = String::from_str("action ").concat(decimal_string_u64(index as u64).as_str()).concat(" follows a terminal state");
            return Err(message);
        }
        let legal = state.legal_actions();
        if !contains_action(&legal, action) {
            proof {
                assert(first_unplayable(start, actions@, (index + 1) as nat) == Some(index as int));
                lemma_first_more(start, actions@, (index + 1) as nat, actions@.len() as nat);
            }
            let message = String::from_str("illegal action ").concat(action.notation().as_str()).concat(" at ply ").concat(decimal_string_u64(state.ply as u64).as_str());
            return Err(message);
        }
        proof {
            law_play_keeps_inventory(state, action);
        }
        state = state.apply_legal(action).state;
        states.push(state);
        index = index + 1;
    }
    proof {
        lemma_first_unplayable(start, actions@, actions@.len() as nat);
    }
    let last = if state.winner.is_some() {
        Some(state)
    } else {
        None
    };
    Ok((states, last))
}

/// Once an action is unplayable, it stays the first one however many
/// actions follow.
proof fn lemma_first_more(start: GameState, actions: Seq<Action>, n: nat, m: nat)
    requires
        n <= m,
        first_unplayable(start, actions, n) is Some,
    ensures
        first_unplayable(start, actions, m) == first_unplayable(start, actions, n),
    decreases m - n,
{
    if m > n {
        lemma_first_more(start, actions, n, (m - 1) as nat);
    }
}

/// The squares of the full-board mask are exactly the board's cells.
pub(crate) proof fn lemma_full_board_bits(config: BoardConfig)
    requires
        3 <= config.board_size <= 8,
    ensures
        forall|j: int| has_bit(config.spec_full_board(), j) == (0 <= j < config.spec_cells()),
{
    crate::geometry::lemma_cells(config.board_size as int);
    assert forall|j: int| has_bit(config.spec_full_board(), j) == (0 <= j < config.spec_cells()) by {
        if config.spec_cells() == 64 {
            lemma_has_bit_max(j);
        } else {
            lemma_has_bit_low(config.spec_cells(), j);
        }
    }
}

/// A legal move keeps the relocation markers on the board.
pub(crate) proof fn lemma_markers_kept(state: GameState, action: Action)
    requires
        3 <= state.config.board_size <= 8,
        markers_on_board(state),
        state.spec_legal_actions().contains(action),
    ensures
        markers_on_board(state.spec_apply(action).state),
{
    crate::rules::lemma_legal_action_shape(state, action);
    lemma_full_board_bits(state.config);
    let d = action.spec_destination() as int;
    lemma_has_bit_and(state.config.spec_full_board(), !(state.light | state.dark | state.forbidden), d);
}

/// Every position of a playable prefix keeps its markers on the board.
proof fn lemma_played_markers(start: GameState, actions: Seq<Action>, n: nat)
    requires
        3 <= start.config.board_size <= 8,
        markers_on_board(start),
        start.inventory_kept(),
        start.ply == 0,
        n <= actions.len() < u16::MAX,
        forall|i: int| 0 <= i < n ==> #[trigger] playable_at(start, actions, i),
    ensures
        markers_on_board(played(start, actions, n)),
        played(start, actions, n).config == start.config,
        played(start, actions, n).inventory_kept(),
        played(start, actions, n).ply == n,
    decreases n,
{
    if n > 0 {
        lemma_played_markers(start, actions, (n - 1) as nat);
        assert(playable_at(start, actions, n - 1));
        lemma_markers_kept(played(start, actions, (n - 1) as nat), actions[n - 1]);
        law_play_keeps_inventory(played(start, actions, (n - 1) as nat), actions[n - 1]);
    }
}

/// A replayed game's second-to-last position, read as a ring-2 endgame
/// candidate: the position, its canonical key, the move played from it, the
/// canonical key of the position it led to, and every legal move with the
/// canonical key of its child.
pub struct Ring2Candidate {
    pub parent: GameState,
    pub key: Vec<u8>,
    pub witness: Action,
    pub child_key: Vec<u8>,
    pub edges: Vec<(Action, Vec<u8>)>,
}

/// A game on the deployed 7x7 board with at least two moves.
pub open spec fn deployed_game(config: BoardConfig, n: nat) -> bool {
    config == (BoardConfig { board_size: 7, reserve_per_player: 14, max_plies: 180 }) && n >= 2
}

/// The candidate a result carries, if any.
pub open spec fn candidate_of(r: Result<Option<Ring2Candidate>, String>) -> Option<Ring2Candidate> {
    match r {
        Ok(c) => c,
        Err(_) => None,
    }
}

/// `c` is read off the last two moves of the won game `actions`.
pub open spec fn ring2_ok(start: GameState, actions: Seq<Action>, c: Ring2Candidate) -> bool {
    let n = actions.len();
    let parent = played(start, actions, (n - 2) as nat);
    let child = played(start, actions, (n - 1) as nat);
    &&& n >= 2
    &&& c.parent == parent
    &&& c.key@ == canonical_key_of(parent)
    &&& c.witness == actions[n - 2]
    &&& c.child_key@ == canonical_key_of(child)
    &&& parent.winner is None && child.winner is None
    &&& parent.spec_legal_actions().contains(actions[n - 2])
    &&& child.spec_legal_actions().contains(actions[n - 1])
    &&& parent.spec_apply(actions[n - 2]).state == child
    &&& child.spec_apply(actions[n - 1]).state == played(start, actions, n as nat)
    &&& played(start, actions, n as nat).winner is Some
    &&& c.edges@.len() == parent.spec_legal_actions().len()
    &&& forall|i: int| 0 <= i < c.edges@.len() ==> (#[trigger] c.edges@[i]).0 == parent.spec_legal_actions()[i]
        && c.edges@[i].1@ == canonical_key_of(parent.spec_apply(parent.spec_legal_actions()[i]).state)
}

/// The ring-2 candidate of a recorded game: none unless the game is on the
/// deployed 7x7 board, has at least two moves and ends with a win; an
/// illegal record is refused as `replay` refuses it.
#[verifier::rlimit(40)]
pub fn ring2_candidate(actions: &[Action], config: BoardConfig) -> (r: Result<Option<Ring2Candidate>, String>)
    requires
        config.valid(),
        actions@.len() < u16::MAX,
    ensures
        !deployed_game(config, actions@.len()) ==> r == Ok::<Option<Ring2Candidate>, String>(None),
        deployed_game(config, actions@.len()) && first_unplayable(GameState::initial(config), actions@, actions@.len())
            is Some ==> r is Err,
        r matches Err(e) ==> e@ == replay_error(
            GameState::initial(config),
            actions@,
            first_unplayable(GameState::initial(config), actions@, actions@.len()).unwrap(),
        ),
        deployed_game(config, actions@.len()) && first_unplayable(GameState::initial(config), actions@, actions@.len())
            is None ==> (candidate_of(r) is Some <==> played(GameState::initial(config), actions@, actions@.len()).winner
            is Some) && r is Ok,
        candidate_of(r) matches Some(c) ==> ring2_ok(GameState::initial(config), actions@, c),
{
    let deployed = BoardConfig::default();
    if config != deployed || actions.len() < 2 {
        return Ok(None);
    }
    let (states, terminal) = match replay(actions, config) {
        Ok(result) => result,
        Err(e) => {
            return Err(e);
        },
    };
    if terminal.is_none() {
        return Ok(None);
    }
    let n = actions.len();
    let ghost start = GameState::initial(config);
    proof {
        if first_unplayable(start, actions@, n as nat) is Some {
            assert(false);
        }
        lemma_first_unplayable(start, actions@, n as nat);
        crate::rules::lemma_initial_inventory(config);
        lemma_played_markers(start, actions@, (n - 2) as nat);
        lemma_played_markers(start, actions@, (n - 1) as nat);
        assert(playable_at(start, actions@, n - 2));
        assert(playable_at(start, actions@, n - 1));
    }
    let parent = states[n - 2];
    let child = states[n - 1];
    let key = canonical_position_key(parent);
    let child_key = canonical_position_key(child);
    let legal = parent.legal_actions();
    let mut edges: Vec<(Action, Vec<u8>)> = Vec::new();
    let mut i: usize = 0;
    while i < legal.len()
        invariant
            i <= legal@.len(),
            legal@ == parent.spec_legal_actions(),
            parent == played(start, actions@, (n - 2) as nat),
            parent.config == config,
            config.board_size == 7,
            markers_on_board(parent),
            parent.inventory_kept(),
            parent.ply < u16::MAX,
            edges@.len() == i,
            forall|k: int| 0 <= k < i ==> (#[trigger] edges@[k]).0 == legal@[k] && edges@[k].1@ == canonical_key_of(
                parent.spec_apply(legal@[k]).state,
            ),
        decreases legal@.len() - i,
    {
        let action = legal[i];
        proof {
            assert(legal@.contains(action));
            lemma_markers_kept(parent, action);
            law_play_keeps_inventory(parent, action);
        }
        let next = parent.apply_legal(action).state;
        assert(next.config.board_size == 7);
        edges.push((action, canonical_position_key(next)));
        i = i + 1;
    }
    Ok(Some(Ring2Candidate { parent, key, witness: actions[n - 2], child_key, edges }))
}

} // verus!
