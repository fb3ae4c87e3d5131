//! Pathfinder: a heuristic evaluation and an iterative-deepening alpha-beta
//! search with a transposition table, a node budget and an optional
//! wall-clock deadline.

use vstd::prelude::*;

use crate::bitboard::{
    bit, bit_count, bit_squares, has_bit, lemma_clear_square, lemma_has_bit_and, lemma_has_bit_zero,
    lemma_count_below_single, lemma_set_square, lemma_squares_below,
    lowest_square, mask_squares, popcount, single, test_bit,
};
use crate::geometry::{adjacent, edge_mask, lemma_cells, lemma_geometry, neighbor_mask_for, on_far_edge, on_near_edge};
use crate::golden::{cell_count, markers_on_board, GoldenOutcome};
use crate::golden_book::{book_proven_action, parsed_book, BookRowView};
use crate::golden_table::{
    first_open_problem, open_problem, slice_view, table_answer, table_probe, table_sorted,
    MemoryGoldenLookup, MemoryGoldenLookupLayers,
};
use crate::ground_truth::{same_position, same_position_exec};
use crate::rules::{captures_from, law_opponent_involution, law_play_keeps_inventory, Action, GameState, Player};
use std::collections::HashMap;

verus! {

pub const WIN_SCORE: i32 = 1_000_000_000;

/// Search bounds strictly contain every value `evaluate` returns.
pub const NEG_INF: i32 = -WIN_SCORE - 1;

pub const POS_INF: i32 = WIN_SCORE + 1;

/// The largest magnitude a weight may have: it keeps every heuristic score
/// well inside the win scores.
pub const MAX_WEIGHT: i32 = 1_000_000;

#[derive(Clone, Copy, Debug, PartialEq, Eq, Structural)]
pub struct EvaluationWeights {
    pub path: i32,
    pub material: i32,
    pub capture: i32,
    pub structure: i32,
    pub threat: i32,
    pub edge: i32,
}

impl EvaluationWeights {
    /// Every weight is at most `MAX_WEIGHT` in magnitude.
    pub open spec fn fits(self) -> bool {
        &&& -MAX_WEIGHT <= self.path <= MAX_WEIGHT
        &&& -MAX_WEIGHT <= self.material <= MAX_WEIGHT
        &&& -MAX_WEIGHT <= self.capture <= MAX_WEIGHT
        &&& -MAX_WEIGHT <= self.structure <= MAX_WEIGHT
        &&& -MAX_WEIGHT <= self.threat <= MAX_WEIGHT
        &&& -MAX_WEIGHT <= self.edge <= MAX_WEIGHT
    }
}

/// The evaluator's default weights.
pub open spec fn default_weights() -> EvaluationWeights {
    EvaluationWeights { path: 240, material: 110, capture: 700, structure: 55, threat: 130, edge: 80 }
}

impl Default for EvaluationWeights {
    fn default() -> (r: Self)
        ensures
            r == default_weights(),
    {
        EvaluationWeights { path: 240, material: 110, capture: 700, structure: 55, threat: 130, edge: 80 }
    }
}

#[derive(Clone, Copy, Debug, PartialEq, Eq, Structural)]
pub struct SearchConfig {
    pub depth: u8,
    pub max_nodes: u64,
    pub beam_width: usize,
    pub weights: EvaluationWeights,
    pub tactical_proof_horizon: Option<u8>,
}

impl Default for SearchConfig {
    fn default() -> (r: Self)
        ensures
            r == (SearchConfig {
                depth: 5,
                max_nodes: 2_000,
                beam_width: 256,
                weights: EvaluationWeights {
                    path: 240,
                    material: 110,
                    capture: 700,
                    structure: 55,
                    threat: 130,
                    edge: 80,
                },
                tactical_proof_horizon: None,
            }),
    {
        SearchConfig {
            depth: 5,
            max_nodes: 2_000,
            beam_width: 256,
            weights: EvaluationWeights::default(),
            tactical_proof_horizon: None,
        }
    }
}

impl SearchConfig {
    /// The configurations the search runs under: weights that keep scores
    /// inside the bounds, and a node budget whose counters cannot overflow.
    pub open spec fn fits(self) -> bool {
        &&& self.weights.fits()
        &&& self.max_nodes <= 0x1000_0000_0000_0000
    }
}

#[derive(Clone, Copy, Debug, PartialEq, Eq, Structural)]
pub struct SearchResult {
    pub action: Option<Action>,
    pub score: i32,
    pub nodes: u64,
    pub exhausted: bool,
    pub completed_depth: u8,
    pub table_hits: u64,
}

#[derive(Clone, Copy, Debug, PartialEq, Eq, Structural)]
pub struct MoveEvaluation {
    pub action: Action,
    pub before_score: i32,
    pub score: i32,
    pub delta: i32,
    pub nodes: u64,
    pub exhausted: bool,
    pub completed_depth: u8,
    pub table_hits: u64,
}

/// A root action and the score found for it at one completed iterative pass.
/// Scores of alternatives can be alpha-beta bounds: they are search
/// preferences, not calibrated win probabilities.
#[derive(Clone, Copy, Debug, PartialEq, Eq, Structural)]
pub struct RootSearchCandidate {
    pub action: Action,
    pub score: i32,
}

// ---------------------------------------------------------------------------
// Evaluation features
// ---------------------------------------------------------------------------

/// The supported positions that the features read.
pub open spec fn board_ok(state: GameState) -> bool {
    3 <= state.config.board_size <= 8
}

/// Whether `player` has a piece on `square`, as `board_at` reads the board.
pub open spec fn holds(state: GameState, player: Player, square: int) -> bool {
    match player {
        Player::Light => has_bit(state.light, square),
        Player::Dark => !has_bit(state.light, square) && has_bit(state.dark, square),
    }
}

/// The `index`-th square of a player's near edge.
pub open spec fn near_square(size: int, player: Player, index: int) -> int {
    match player {
        Player::Light => (size - 1) * size + index,
        Player::Dark => index * size,
    }
}

/// The `index`-th square of a player's far edge.
pub open spec fn far_square(size: int, player: Player, index: int) -> int {
    match player {
        Player::Light => index,
        Player::Dark => index * size + size - 1,
    }
}

/// The `index`-th square of the near (`far == false`) or far edge.
pub open spec fn edge_square(size: int, player: Player, far: bool, index: int) -> int {
    if far {
        far_square(size, player, index)
    } else {
        near_square(size, player, index)
    }
}

/// Whether some of the first `n` squares of an edge holds a piece of `player`.
pub open spec fn edge_held(state: GameState, player: Player, far: bool, n: int) -> bool {
    exists|index: int|
        0 <= index < n && #[trigger] holds(
            state,
            player,
            edge_square(state.config.board_size as int, player, far, index),
        )
}

/// How many of its two edges a player has a piece on.
pub open spec fn spec_edge_presence(state: GameState, player: Player) -> int {
    let size = state.config.board_size as int;
    (if edge_held(state, player, false, size) {
        1int
    } else {
        0int
    }) + (if edge_held(state, player, true, size) {
        1int
    } else {
        0int
    })
}

pub fn edge_presence(state: GameState, player: Player) -> (r: i32)
    requires
        board_ok(state),
    ensures
        r == spec_edge_presence(state, player),
        0 <= r <= 2,
{
    let board_size = state.config.board_size;
    let ghost size = board_size as int;
    let mut near = false;
    let mut far = false;
    let mut index: u8 = 0;
    while index < board_size
        invariant
            board_ok(state),
            board_size == state.config.board_size,
            size == board_size,
            index <= board_size,
            near == edge_held(state, player, false, index as int),
            far == edge_held(state, player, true, index as int),
        decreases board_size - index,
    {
        proof {
            assert((board_size - 1) * board_size + index < 64) by (nonlinear_arith)
                requires
                    board_size <= 8,
                    index < board_size,
            ;
            assert(index * board_size + board_size - 1 < 64) by (nonlinear_arith)
                requires
                    board_size <= 8,
                    index < board_size,
            ;
        }
        let near_square = match player {
            Player::Light => (board_size - 1) * board_size + index,
            Player::Dark => index * board_size,
        };
        let far_square = match player {
            Player::Light => index,
            Player::Dark => index * board_size + board_size - 1,
        };
        let near_here = state.board_at(near_square) == Some(player);
        let far_here = state.board_at(far_square) == Some(player);
        proof {
            let i = index as int;
            assert(edge_square(size, player, false, i) == near_square as int);
            assert(edge_square(size, player, true, i) == far_square as int);
            assert(near_here == holds(state, player, edge_square(size, player, false, i)));
            assert(far_here == holds(state, player, edge_square(size, player, true, i)));
            assert(edge_held(state, player, false, i + 1) == (edge_held(
                state,
                player,
                false,
                i,
            ) || near_here));
            assert(edge_held(state, player, true, i + 1) == (edge_held(state, player, true, i)
                || far_here));
        }
        near = near || near_here;
        far = far || far_here;
        index = index + 1;
    }
    (if near {
        1
    } else {
        0
    }) + (if far {
        1
    } else {
        0
    })
}

/// How many of the first `n` recorded distances exceed `bound`.
pub open spec fn count_above(distance: Seq<u8>, bound: int, n: nat) -> nat
    decreases n,
{
    if n == 0 {
        0
    } else {
        count_above(distance, bound, (n - 1) as nat) + if distance[n - 1] > bound {
            1nat
        } else {
            0nat
        }
    }
}

proof fn lemma_count_above_agree(a: Seq<u8>, b: Seq<u8>, bound: int, n: nat)
    requires
        n <= a.len(),
        n <= b.len(),
        forall|j: int| 0 <= j < n ==> a[j] == b[j],
    ensures
        count_above(a, bound, n) == count_above(b, bound, n),
    decreases n,
{
    if n > 0 {
        lemma_count_above_agree(a, b, bound, (n - 1) as nat);
    }
}

proof fn lemma_count_above_update(distance: Seq<u8>, bound: int, n: nat, i: int, v: u8)
    requires
        0 <= i < n,
        n <= distance.len(),
    ensures
        count_above(distance.update(i, v), bound, n) + (if distance[i] > bound {
            1int
        } else {
            0int
        }) == count_above(distance, bound, n) + (if v > bound {
            1int
        } else {
            0int
        }),
    decreases n,
{
    let updated = distance.update(i, v);
    if i < n - 1 {
        lemma_count_above_update(distance, bound, (n - 1) as nat, i, v);
    } else {
        lemma_count_above_agree(distance, updated, bound, (n - 1) as nat);
    }
}

/// The state of the 0-1 breadth-first search: distances are unknown (255)
/// or at most `limit`, and every square filed in a bucket carries that
/// bucket's distance.
pub open spec fn frontier_ok(distance: Seq<u8>, buckets: Seq<u64>, limit: int, cells: int) -> bool {
    &&& distance.len() == 64
    &&& buckets.len() == 66
    &&& forall|s: int|
        0 <= s < 64 ==> #[trigger] distance[s] == 255 || (distance[s] <= limit && s < cells)
    &&& forall|d: int, s: int|
        0 <= d < 66 && #[trigger] has_bit(buckets[d], s) ==> distance[s] == d
}

/// A square a walk of `player` may cross: on the bitboard, no opponent piece.
pub open spec fn passable(state: GameState, player: Player, square: int) -> bool {
    0 <= square < 64 && !has_bit(state.spec_pieces(player.opponent()), square)
}

/// The squares of a walk that `player` does not hold yet.
pub open spec fn walk_cost(state: GameState, player: Player, walk: Seq<int>) -> int
    decreases walk.len(),
{
    if walk.len() == 0 {
        0
    } else {
        walk_cost(state, player, walk.drop_last()) + if has_bit(state.spec_pieces(player), walk.last()) {
            0int
        } else {
            1int
        }
    }
}

/// An orthogonal walk of `player` from its near edge around opponent pieces.
pub open spec fn is_walk(state: GameState, player: Player, walk: Seq<int>) -> bool {
    let size = state.config.board_size as int;
    &&& walk.len() >= 1
    &&& on_near_edge(size, player, walk[0])
    &&& forall|k: int| 0 <= k < walk.len() ==> passable(state, player, #[trigger] walk[k])
    &&& forall|k: int| 0 <= k < walk.len() - 1 ==> adjacent(size, #[trigger] walk[k], walk[k + 1])
}

/// Some walk of `player` ends on `square` with `cost` squares left to fill.
pub open spec fn reaches(state: GameState, player: Player, square: int, cost: int) -> bool {
    exists|walk: Seq<int>|
        #[trigger] is_walk(state, player, walk) && walk.last() == square && walk_cost(state, player, walk) == cost
}

/// `player` can join its edges by filling `cost` more squares.
pub open spec fn joinable_at(state: GameState, player: Player, cost: int) -> bool {
    exists|square: int|
        on_far_edge(state.config.board_size as int, player, square) && #[trigger] reaches(state, player, square, cost)
}

/// A walk to `square` extends to a passable neighbour, paying for the
/// neighbour unless `player` holds it.
proof fn lemma_extend_walk(state: GameState, player: Player, square: int, cost: int, next: int)
    requires
        reaches(state, player, square, cost),
        adjacent(state.config.board_size as int, square, next),
        passable(state, player, next),
    ensures
        reaches(state, player, next, cost + if has_bit(state.spec_pieces(player), next) {
            0int
        } else {
            1int
        }),
{
    let size = state.config.board_size as int;
    let w = choose|w: Seq<int>| #[trigger] is_walk(state, player, w) && w.last() == square && walk_cost(state, player, w) == cost;
    let w2 = w.push(next);
    assert(w2.drop_last() =~= w);
    assert forall|k: int| 0 <= k < w2.len() - 1 implies adjacent(size, #[trigger] w2[k], w2[k + 1]) by {
        if k < w.len() - 1 {
            assert(w2[k] == w[k] && w2[k + 1] == w[k + 1]);
        } else {
            assert(w2[k] == square);
        }
    }
    assert forall|k: int| 0 <= k < w2.len() implies passable(state, player, #[trigger] w2[k]) by {
        if k < w.len() {
            assert(w2[k] == w[k]);
        }
    }
    assert(is_walk(state, player, w2));
}

/// Recording a reached distance for one square keeps every recorded
/// distance reached.
proof fn lemma_reached_after_set(state: GameState, player: Player, before: Seq<u8>, after: Seq<u8>, at: int)
    requires
        before.len() == 64,
        after == before.update(at, after[at]),
        0 <= at < 64,
        forall|q: int| 0 <= q < 64 && #[trigger] before[q] != 255 ==> reaches(state, player, q, before[q] as int),
        reaches(state, player, at, after[at] as int),
    ensures
        forall|q: int| 0 <= q < 64 && #[trigger] after[q] != 255 ==> reaches(state, player, q, after[q] as int),
{
    assert forall|q: int| 0 <= q < 64 && #[trigger] after[q] != 255 implies reaches(state, player, q, after[q] as int) by {
        if q != at {
            assert(after[q] == before[q]);
        }
    }
}

/// What a square costs a walk of `player`: nothing where it has a piece.
pub open spec fn step_of(state: GameState, player: Player, square: int) -> int {
    if has_bit(state.spec_pieces(player), square) {
        0
    } else {
        1
    }
}

/// The first `n` near-edge squares that are passable carry at most their
/// own cost.
spec fn near_set(state: GameState, player: Player, distance: Seq<u8>, n: int) -> bool {
    forall|i: int|
        0 <= i < n && passable(state, player, #[trigger] near_square(state.config.board_size as int, player, i))
            ==> distance[near_square(state.config.board_size as int, player, i)] != 255 && distance[near_square(
            state.config.board_size as int,
            player,
            i,
        )] <= step_of(state, player, near_square(state.config.board_size as int, player, i))
}

/// Every passable neighbour of `square` carries at most its distance plus
/// the neighbour's cost.
spec fn relaxed(state: GameState, player: Player, distance: Seq<u8>, square: int) -> bool {
    forall|n: int|
        #[trigger] adjacent(state.config.board_size as int, square, n) && passable(state, player, n) ==> distance[n]
            != 255 && distance[n] <= distance[square] + step_of(state, player, n)
}

/// Every square with a distance is expanded or filed under its distance.
spec fn queued(distance: Seq<u8>, buckets: Seq<u64>, expanded: Seq<bool>, skip: int) -> bool {
    forall|s: int|
        0 <= s < 64 && s != skip && #[trigger] distance[s] != 255 ==> expanded[s] || has_bit(
            buckets[distance[s] as int],
            s,
        )
}

/// Expanded squares have a distance, their neighbours relaxed, and lie off
/// the far edge.
spec fn expanded_ok(state: GameState, player: Player, distance: Seq<u8>, expanded: Seq<bool>) -> bool {
    forall|s: int|
        0 <= s < 64 && #[trigger] expanded[s] ==> distance[s] != 255 && relaxed(state, player, distance, s)
            && !on_far_edge(state.config.board_size as int, player, s)
}

/// The buckets below `bound` are empty.
spec fn emptied_below(buckets: Seq<u64>, bound: int) -> bool {
    forall|d: int| 0 <= d < bound ==> #[trigger] buckets[d] == 0
}

/// Lowering one unexpanded square's distance keeps the near edge and the
/// expanded squares in order.
proof fn lemma_lower_distance(
    state: GameState,
    player: Player,
    before: Seq<u8>,
    after: Seq<u8>,
    expanded: Seq<bool>,
    at: int,
    n: int,
)
    requires
        before.len() == 64,
        expanded.len() == 64,
        0 <= at < 64,
        after == before.update(at, after[at]),
        after[at] != 255,
        before[at] == 255 || after[at] <= before[at],
        !expanded[at],
        near_set(state, player, before, n),
        expanded_ok(state, player, before, expanded),
    ensures
        near_set(state, player, after, n),
        expanded_ok(state, player, after, expanded),
{
    let size = state.config.board_size as int;
    assert forall|i: int|
        0 <= i < n && passable(state, player, #[trigger] near_square(size, player, i)) implies after[near_square(size, player, i)]
            != 255 && after[near_square(size, player, i)] <= step_of(state, player, near_square(size, player, i)) by {
        let q = near_square(size, player, i);
        if q != at {
            assert(after[q] == before[q]);
        }
    }
    assert forall|s: int| 0 <= s < 64 && #[trigger] expanded[s] implies after[s] != 255 && relaxed(state, player, after, s)
        && !on_far_edge(size, player, s) by {
        assert(after[s] == before[s]);
        assert(relaxed(state, player, before, s));
        assert forall|m: int| #[trigger] adjacent(size, s, m) && passable(state, player, m) implies after[m] != 255
            && after[m] <= after[s] + step_of(state, player, m) by {
            if m != at {
                assert(after[m] == before[m]);
            }
        }
    }
}

/// `cost` is the least number of squares `player` must still fill to join
/// its edges, or the cell count when no smaller number will do.
pub open spec fn is_join_cost(state: GameState, player: Player, cost: int) -> bool {
    &&& 0 <= cost <= state.config.spec_cells()
    &&& cost < state.config.spec_cells() ==> joinable_at(state, player, cost)
    &&& forall|c: int| 0 <= c < cost ==> !#[trigger] joinable_at(state, player, c)
}

/// The connection distance of `player`: its join cost.
pub open spec fn join_cost(state: GameState, player: Player) -> int {
    choose|cost: int| is_join_cost(state, player, cost)
}

proof fn lemma_join_cost_unique(state: GameState, player: Player, a: int, b: int)
    requires
        is_join_cost(state, player, a),
        is_join_cost(state, player, b),
    ensures
        a == b,
{
    if a < b {
        assert(joinable_at(state, player, a));
    } else if b < a {
        assert(joinable_at(state, player, b));
    }
}

/// A walk cheaper than `bound` ends on a square whose distance is at most
/// the walk's cost, once every bucket below `bound` is spent.
proof fn lemma_walk_settled(
    state: GameState,
    player: Player,
    distance: Seq<u8>,
    buckets: Seq<u64>,
    expanded: Seq<bool>,
    bound: int,
    w: Seq<int>,
)
    requires
        board_ok(state),
        distance.len() == 64,
        buckets.len() == 66,
        expanded.len() == 64,
        0 <= bound <= 66,
        forall|s: int| 0 <= s < 64 && #[trigger] distance[s] != 255 ==> distance[s] < 66,
        near_set(state, player, distance, state.config.board_size as int),
        queued(distance, buckets, expanded, -1),
        expanded_ok(state, player, distance, expanded),
        emptied_below(buckets, bound),
        is_walk(state, player, w),
        walk_cost(state, player, w) < bound,
    ensures
        distance[w.last()] != 255,
        distance[w.last()] <= walk_cost(state, player, w),
    decreases w.len(),
{
    let size = state.config.board_size as int;
    let last = w.last();
    if w.len() == 1 {
        let w0 = w[0];
        lemma_geometry(size, w0);
        let i = match player {
            Player::Light => w0 % size,
            Player::Dark => w0 / size,
        };
        assert(near_square(size, player, i) == w0);
        assert(passable(state, player, w[0]));
        assert(w.drop_last() =~= Seq::<int>::empty());
        assert(walk_cost(state, player, Seq::<int>::empty()) == 0);
    } else {
        let v = w.drop_last();
        assert forall|k: int| 0 <= k < v.len() implies passable(state, player, #[trigger] v[k]) by {
            assert(v[k] == w[k]);
        }
        assert forall|k: int| 0 <= k < v.len() - 1 implies adjacent(size, #[trigger] v[k], v[k + 1]) by {
            assert(v[k] == w[k] && v[k + 1] == w[k + 1]);
        }
        assert(is_walk(state, player, v));
        lemma_walk_settled(state, player, distance, buckets, expanded, bound, v);
        let prev = v.last();
        assert(prev == w[w.len() - 2]);
        assert(adjacent(size, w[w.len() - 2], w[w.len() - 1]));
        assert(passable(state, player, w[w.len() - 1]));
        assert(distance[prev] < bound);
        assert(expanded[prev]) by {
            if !expanded[prev] {
                assert(has_bit(buckets[distance[prev] as int], prev));
                assert(buckets[distance[prev] as int] == 0);
                lemma_has_bit_zero(prev);
            }
        }
        assert(relaxed(state, player, distance, prev));
        assert(adjacent(size, prev, last));
    }
}

/// No walk of `player` cheaper than `bound` reaches the far edge, once every
/// bucket below `bound` is spent.
proof fn lemma_no_join_below(
    state: GameState,
    player: Player,
    distance: Seq<u8>,
    buckets: Seq<u64>,
    expanded: Seq<bool>,
    bound: int,
)
    requires
        board_ok(state),
        distance.len() == 64,
        buckets.len() == 66,
        expanded.len() == 64,
        0 <= bound <= 66,
        forall|s: int| 0 <= s < 64 && #[trigger] distance[s] != 255 ==> distance[s] < 66,
        near_set(state, player, distance, state.config.board_size as int),
        queued(distance, buckets, expanded, -1),
        expanded_ok(state, player, distance, expanded),
        emptied_below(buckets, bound),
    ensures
        forall|c: int| 0 <= c < bound ==> !#[trigger] joinable_at(state, player, c),
{
    let size = state.config.board_size as int;
    assert forall|c: int| 0 <= c < bound implies !#[trigger] joinable_at(state, player, c) by {
        if joinable_at(state, player, c) {
            let t = choose|t: int| on_far_edge(size, player, t) && #[trigger] reaches(state, player, t, c);
            let w = choose|w: Seq<int>| #[trigger] is_walk(state, player, w) && w.last() == t && walk_cost(state, player, w) == c;
            lemma_walk_settled(state, player, distance, buckets, expanded, bound, w);
            assert(passable(state, player, w[w.len() - 1]));
            if !expanded[t] {
                assert(has_bit(buckets[distance[t] as int], t));
                assert(buckets[distance[t] as int] == 0);
                lemma_has_bit_zero(t);
            }
        }
    }
}

/// The fewest empty squares `player` still has to fill to join its two
/// edges, walking orthogonally around opponent pieces; the cell count when
/// the edges cannot be joined.
pub fn connection_distance(state: GameState, player: Player) -> (r: i32)
    requires
        board_ok(state),
    ensures
        0 <= r <= state.config.spec_cells(),
        r < state.config.spec_cells() ==> joinable_at(state, player, r as int),
        forall|c: int| 0 <= c < r ==> !#[trigger] joinable_at(state, player, c),
        r == join_cost(state, player),
{
    let opponent = player.other();
    let board_size = state.config.board_size;
    proof {
        lemma_cells(board_size as int);
    }
    let cell_count = state.config.cells();
    let own = state.pieces(player);
    let opposing = state.pieces(opponent);
    let far_edge = edge_mask(board_size, player, true);
    let mut distance: Vec<u8> = vec![255u8; 64];
    let mut buckets: Vec<u64> = vec![0u64; 66];
    proof {
        assert forall|d: int, s: int| 0 <= d < 66 && #[trigger] has_bit(buckets@[d], s) implies distance@[s] == d by {
            lemma_has_bit_zero(s);
        }
    }
    let ghost mut expanded: Seq<bool> = Seq::new(64, |s: int| false);
    proof {
        assert forall|q: int| 0 <= q < 64 && -1 != q && #[trigger] distance@[q] != 255 implies expanded[q] || has_bit(
            buckets@[distance@[q] as int],
            q,
        ) by {}
    }
    let mut index: u8 = 0;
    while index < board_size
        invariant
            board_ok(state),
            board_size == state.config.board_size,
            index <= board_size,
            frontier_ok(distance@, buckets@, 1, board_size * board_size),
            expanded == Seq::new(64, |s: int| false),
            near_set(state, player, distance@, index as int),
            queued(distance@, buckets@, expanded, -1),
            own == state.spec_pieces(player),
            opposing == state.spec_pieces(player.opponent()),
            forall|q: int| 0 <= q < 64 && #[trigger] distance@[q] != 255 ==> reaches(state, player, q, distance@[q] as int),
        decreases board_size - index,
    {
        proof {
            assert((board_size - 1) * board_size + index < 64) by (nonlinear_arith)
                requires
                    board_size <= 8,
                    index < board_size,
            ;
            assert(index * board_size < 64) by (nonlinear_arith)
                requires
                    board_size <= 8,
                    index < board_size,
            ;
        }
        let square = match player {
            Player::Light => (board_size - 1) * board_size + index,
            Player::Dark => index * board_size,
        };
        proof {
            assert(square < board_size * board_size) by (nonlinear_arith)
                requires
                    square == (board_size - 1) * board_size + index || square == index
                        * board_size,
                    index < board_size,
            ;
        }
        if !test_bit(opposing, square) {
            let cost: u8 = if test_bit(own, square) {
                0
            } else {
                1
            };
            let previous = distance[square as usize];
            let ghost before_buckets = buckets@;
            if previous != 255 {
                let cleared = buckets[previous as usize] & !bit(square);
                proof {
                    lemma_clear_square(buckets@[previous as int], square as int);
                }
                buckets.set(previous as usize, cleared);
            }
            let ghost mid = buckets@;
            proof {
                assert forall|d: int| 0 <= d < 66 implies !has_bit(#[trigger] mid[d], square as int) by {
                    if has_bit(mid[d], square as int) {
                        if d != previous {
                            assert(has_bit(buckets@[d], square as int));
                        }
                    }
                }
            }
            proof {
                let size = board_size as int;
                assert(on_near_edge(size, player, square as int)) by {
                    if player == Player::Light {
                        assert(((size - 1) * size + index) / size == size - 1) by (nonlinear_arith)
                            requires
                                3 <= size <= 8,
                                0 <= index < size,
                        ;
                    } else {
                        assert((index * size) % size == 0) by (nonlinear_arith)
                            requires
                                3 <= size <= 8,
                                0 <= index,
                        ;
                    }
                }
                let walk = seq![square as int];
                assert(walk.drop_last() =~= Seq::<int>::empty());
                assert(walk_cost(state, player, Seq::<int>::empty()) == 0);
                assert(is_walk(state, player, walk));
                assert(walk_cost(state, player, walk) == cost as int);
            }
            let ghost before_distance = distance@;
            distance.set(square as usize, cost);
            proof {
                assert forall|q: int| 0 <= q < 64 && #[trigger] distance@[q] != 255 implies reaches(
                    state,
                    player,
                    q,
                    distance@[q] as int,
                ) by {
                    if q != square {
                        assert(distance@[q] == before_distance[q]);
                    } else {
                        let walk = seq![square as int];
                        assert(walk.last() == q);
                    }
                }
            }
            let filed = buckets[cost as usize] | bit(square);
            proof {
                lemma_set_square(buckets@[cost as int], square as int);
            }
            buckets.set(cost as usize, filed);
            proof {
                assert forall|d: int, s: int| 0 <= d < 66 && #[trigger] has_bit(buckets@[d], s) implies distance@[s] == d by {
                    if d != cost {
                        assert(buckets@[d] == mid[d]);
                        if s == square {
                            assert(false);
                        }
                    }
                }
                let size = board_size as int;
                assert(square as int == near_square(size, player, index as int));
                assert(cost as int == step_of(state, player, square as int));
                assert forall|i: int|
                    0 <= i < index + 1 && passable(state, player, #[trigger] near_square(size, player, i)) implies distance@[near_square(size, player, i)]
                        != 255 && distance@[near_square(size, player, i)] <= step_of(state, player, near_square(size, player, i)) by {
                    if near_square(size, player, i) != square {
                        assert(distance@[near_square(size, player, i)] == before_distance[near_square(size, player, i)]);
                    }
                }
                assert forall|q: int| 0 <= q < 64 && q != -1 && #[trigger] distance@[q] != 255 implies expanded[q] || has_bit(
                    buckets@[distance@[q] as int],
                    q,
                ) by {
                    if q != square {
                        assert(distance@[q] == before_distance[q]);
                        assert(has_bit(before_buckets[distance@[q] as int], q));
                        if distance@[q] == previous {
                            assert(has_bit(mid[distance@[q] as int], q));
                        } else {
                            assert(mid[distance@[q] as int] == before_buckets[distance@[q] as int]);
                        }
                    }
                }
            }
        } else {
            proof {
                let size = board_size as int;
                assert(square as int == near_square(size, player, index as int));
                assert(!passable(state, player, square as int));
            }
        }
        index = index + 1;
    }
    let mut current: usize = 0;
    while current <= cell_count as usize
        invariant
            board_ok(state),
            board_size == state.config.board_size,
            cell_count == state.config.spec_cells(),
            cell_count <= 64,
            current <= cell_count as int + 1,
            frontier_ok(distance@, buckets@, cell_count as int + 1, cell_count as int),
            own == state.spec_pieces(player),
            opposing == state.spec_pieces(player.opponent()),
            forall|j: int| has_bit(far_edge, j) == on_far_edge(board_size as int, player, j),
            forall|q: int| 0 <= q < 64 && #[trigger] distance@[q] != 255 ==> reaches(state, player, q, distance@[q] as int),
            expanded.len() == 64,
            near_set(state, player, distance@, board_size as int),
            queued(distance@, buckets@, expanded, -1),
            expanded_ok(state, player, distance@, expanded),
            forall|q: int| 0 <= q < 64 && #[trigger] expanded[q] ==> distance@[q] <= current,
            forall|q: int| 0 <= q < 64 && #[trigger] expanded[q] ==> !has_bit(buckets@[distance@[q] as int], q),
            emptied_below(buckets@, current as int),
            forall|c: int| 0 <= c < current ==> !#[trigger] joinable_at(state, player, c),
        decreases cell_count as int + 1 - current,
    {
        while buckets[current] != 0
            invariant
                board_ok(state),
                board_size == state.config.board_size,
                cell_count == state.config.spec_cells(),
                cell_count <= 64,
                current <= cell_count,
                frontier_ok(distance@, buckets@, cell_count as int + 1, cell_count as int),
                own == state.spec_pieces(player),
                opposing == state.spec_pieces(player.opponent()),
                forall|j: int| has_bit(far_edge, j) == on_far_edge(board_size as int, player, j),
                forall|q: int| 0 <= q < 64 && #[trigger] distance@[q] != 255 ==> reaches(state, player, q, distance@[q] as int),
                expanded.len() == 64,
                near_set(state, player, distance@, board_size as int),
                queued(distance@, buckets@, expanded, -1),
                expanded_ok(state, player, distance@, expanded),
                forall|q: int| 0 <= q < 64 && #[trigger] expanded[q] ==> distance@[q] <= current,
                forall|q: int| 0 <= q < 64 && #[trigger] expanded[q] ==> !has_bit(buckets@[distance@[q] as int], q),
                emptied_below(buckets@, current as int),
                forall|c: int| 0 <= c < current ==> !#[trigger] joinable_at(state, player, c),
            decreases count_above(distance@, current as int, 64), bit_count(buckets@[current as int]),
        {
            let ghost above = count_above(distance@, current as int, 64);
            let ghost filed = bit_count(buckets@[current as int]);
            let bucket = buckets[current];
            let square = lowest_square(bucket);
            proof {
                lemma_clear_square(bucket, square as int);
            }
            let ghost popped_from = buckets@;
            buckets.set(current, bucket & !bit(square));
            proof {
                assert(!expanded[square as int]) by {
                    if expanded[square as int] {
                        assert(has_bit(popped_from[current as int], square as int));
                        assert(distance@[square as int] == current);
                    }
                }
                assert forall|q: int| 0 <= q < 64 && #[trigger] expanded[q] implies !has_bit(buckets@[distance@[q] as int], q) by {
                    if distance@[q] as int != current as int {
                        assert(buckets@[distance@[q] as int] == popped_from[distance@[q] as int]);
                    }
                }
                assert forall|q: int| 0 <= q < 64 && q != square && #[trigger] distance@[q] != 255 implies expanded[q] || has_bit(
                    buckets@[distance@[q] as int],
                    q,
                ) by {
                    if !expanded[q] {
                        assert(has_bit(popped_from[distance@[q] as int], q));
                    }
                }
                assert forall|d: int| 0 <= d < current implies #[trigger] buckets@[d] == 0 by {
                    assert(popped_from[d] == 0);
                }
            }
            proof {
                assert(distance@[square as int] == current);
                assert(reaches(state, player, square as int, current as int));
            }
            if test_bit(far_edge, square) {
                proof {
                    assert(on_far_edge(board_size as int, player, square as int));
                }
                proof {
                    assert(is_join_cost(state, player, current as int));
                    lemma_join_cost_unique(state, player, current as int, join_cost(state, player));
                }
                return current as i32;
            }
            proof {
                lemma_geometry(board_size as int, square as int);
                assert(square < cell_count) by {
                    assert(distance@[square as int] == current);
                }
            }
            let mut neighbors = neighbor_mask_for(board_size, square);
            while neighbors != 0
                invariant
                    board_ok(state),
                    cell_count == state.config.spec_cells(),
                    cell_count <= 64,
                    current <= cell_count,
                    frontier_ok(distance@, buckets@, cell_count as int + 1, cell_count as int),
                    count_above(distance@, current as int, 64) <= above,
                    count_above(distance@, current as int, 64) + bit_count(buckets@[current as int]) < above + filed,
                    board_size == state.config.board_size,
                    square < cell_count,
                    forall|j: int| #[trigger] has_bit(neighbors, j) ==> adjacent(board_size as int, square as int, j),
                    own == state.spec_pieces(player),
                    opposing == state.spec_pieces(player.opponent()),
                    forall|j: int| has_bit(far_edge, j) == on_far_edge(board_size as int, player, j),
                    reaches(state, player, square as int, current as int),
                    forall|q: int| 0 <= q < 64 && #[trigger] distance@[q] != 255 ==> reaches(state, player, q, distance@[q] as int),
                    expanded.len() == 64,
                    near_set(state, player, distance@, board_size as int),
                    queued(distance@, buckets@, expanded, square as int),
                    expanded_ok(state, player, distance@, expanded),
                    forall|q: int| 0 <= q < 64 && #[trigger] expanded[q] ==> distance@[q] <= current,
                    forall|q: int| 0 <= q < 64 && #[trigger] expanded[q] ==> !has_bit(buckets@[distance@[q] as int], q),
                    !has_bit(buckets@[current as int], square as int),
                    emptied_below(buckets@, current as int),
                    !expanded[square as int],
                    distance@[square as int] == current,
                    !on_far_edge(board_size as int, player, square as int),
                    square < 64,
                    forall|m: int|
                        #[trigger] adjacent(board_size as int, square as int, m) && passable(state, player, m) && !has_bit(neighbors, m)
                            ==> distance@[m] != 255 && distance@[m] <= current + step_of(state, player, m),
                decreases bit_count(neighbors),
            {
                let next = lowest_square(neighbors);
                proof {
                    lemma_clear_square(neighbors, next as int);
                    assert(adjacent(board_size as int, square as int, next as int));
                }
                let ghost d0 = distance@;
                let ghost b0 = buckets@;
                let ghost n0 = neighbors;
                neighbors = neighbors & !bit(next);
                assert(next < cell_count);
                if !test_bit(opposing, next) {
                    let step: u8 = if test_bit(own, next) {
                        0
                    } else {
                        1
                    };
                    let next_distance = current as u8 + step;
                    let previous = distance[next as usize];
                    if next_distance < previous {
                        if previous != 255 {
                            let cleared = buckets[previous as usize] & !bit(next);
                            proof {
                                lemma_clear_square(buckets@[previous as int], next as int);
                            }
                            buckets.set(previous as usize, cleared);
                        }
                        let ghost mid = buckets@;
                        proof {
                            assert forall|d: int| 0 <= d < 66 implies !has_bit(#[trigger] mid[d], next as int) by {
                                if has_bit(mid[d], next as int) {
                                    if d != previous {
                                        assert(has_bit(buckets@[d], next as int));
                                    }
                                }
                            }
                            lemma_count_above_update(distance@, current as int, 64, next as int, next_distance);
                        }
                        proof {
                            lemma_extend_walk(state, player, square as int, current as int, next as int);
                        }
                        let ghost before_distance = distance@;
                        distance.set(next as usize, next_distance);
                        proof {
                            lemma_reached_after_set(state, player, before_distance, distance@, next as int);
                            assert(!expanded[next as int]) by {
                                if expanded[next as int] {
                                    assert(d0[next as int] <= current);
                                }
                            }
                            lemma_lower_distance(state, player, before_distance, distance@, expanded, next as int, board_size as int);
                        }
                        let filed_next = buckets[next_distance as usize] | bit(next);
                        proof {
                            lemma_set_square(buckets@[next_distance as int], next as int);
                        }
                        let ghost mid2 = buckets@;
                        buckets.set(next_distance as usize, filed_next);
                        proof {
                            assert forall|q: int| 0 <= q < 64 && q != square && #[trigger] distance@[q] != 255 implies expanded[q] || has_bit(
                                buckets@[distance@[q] as int],
                                q,
                            ) by {
                                if q != next && !expanded[q] {
                                    assert(distance@[q] == d0[q]);
                                    assert(has_bit(b0[d0[q] as int], q));
                                    if d0[q] == previous {
                                        assert(has_bit(mid2[d0[q] as int], q));
                                    } else {
                                        assert(mid2[d0[q] as int] == b0[d0[q] as int]);
                                    }
                                }
                            }
                            assert forall|d: int| 0 <= d < current implies #[trigger] buckets@[d] == 0 by {
                                assert(b0[d] == 0);
                            }
                            assert forall|q: int| 0 <= q < 64 && #[trigger] expanded[q] implies !has_bit(buckets@[distance@[q] as int], q) by {
                                assert(distance@[q] == d0[q]);
                                assert(!has_bit(b0[d0[q] as int], q));
                                if d0[q] != previous && d0[q] != next_distance {
                                    assert(buckets@[d0[q] as int] == b0[d0[q] as int]);
                                }
                            }
                            assert(!has_bit(buckets@[current as int], square as int)) by {
                                if next_distance != current && previous != current {
                                    assert(buckets@[current as int] == b0[current as int]);
                                }
                            }
                        }
                        proof {
                            assert forall|d: int, s: int| 0 <= d < 66 && #[trigger] has_bit(buckets@[d], s) implies distance@[s] == d by {
                                if d != next_distance {
                                    assert(buckets@[d] == mid[d]);
                                    if s == next {
                                        assert(false);
                                    }
                                }
                            }
                        }
                    }
                }
                proof {
                    let size = board_size as int;
                    assert forall|m: int|
                        #[trigger] adjacent(size, square as int, m) && passable(state, player, m) && !has_bit(neighbors, m)
                            implies distance@[m] != 255 && distance@[m] <= current + step_of(state, player, m) by {
                        if m != next {
                            assert(!has_bit(n0, m));
                            assert(distance@[m] == d0[m] || distance@[m] < d0[m]);
                        } else {
                            assert(!has_bit(opposing, next as int));
                        }
                    }
                }
            }
            proof {
                let size = board_size as int;
                assert(relaxed(state, player, distance@, square as int)) by {
                    assert forall|m: int| #[trigger] adjacent(size, square as int, m) && passable(state, player, m) implies distance@[m]
                        != 255 && distance@[m] <= distance@[square as int] + step_of(state, player, m) by {
                        lemma_has_bit_zero(m);
                    }
                }
                let old_expanded = expanded;
                expanded = expanded.update(square as int, true);
                assert forall|q: int| 0 <= q < 64 && #[trigger] expanded[q] implies !has_bit(buckets@[distance@[q] as int], q) by {
                    if q != square {
                        assert(old_expanded[q]);
                    }
                }
            }
        }
        proof {
            lemma_no_join_below(state, player, distance@, buckets@, expanded, current as int + 1);
        }
        current = current + 1;
    }
    proof {
        assert(is_join_cost(state, player, cell_count as int));
        lemma_join_cost_unique(state, player, cell_count as int, join_cost(state, player));
    }
    cell_count as i32
}

/// An orthogonally connected run of `pieces`.
pub open spec fn piece_chain(size: int, pieces: u64, w: Seq<int>) -> bool {
    &&& w.len() >= 1
    &&& forall|k: int| 0 <= k < w.len() ==> has_bit(pieces, #[trigger] w[k])
    &&& forall|k: int| 0 <= k < w.len() - 1 ==> adjacent(size, #[trigger] w[k], w[k + 1])
}

/// `a` and `b` lie in one orthogonally connected group of `pieces`.
pub open spec fn linked(size: int, pieces: u64, a: int, b: int) -> bool {
    exists|w: Seq<int>| #[trigger] piece_chain(size, pieces, w) && w[0] == a && w.last() == b
}

/// The orthogonally connected group of `pieces` that holds `a`.
pub open spec fn group(size: int, pieces: u64, a: int) -> Set<int> {
    Set::new(|b: int| linked(size, pieces, a, b))
}

/// `n` is the size of the largest orthogonally connected group of `pieces`,
/// or 0 when there are none.
pub open spec fn is_largest_group(size: int, pieces: u64, n: int) -> bool {
    &&& bit_count(pieces) == 0 ==> n == 0
    &&& bit_count(pieces) > 0 ==> (exists|a: int| has_bit(pieces, a) && #[trigger] group(size, pieces, a).len() == n)
    &&& forall|a: int| has_bit(pieces, a) ==> (#[trigger] group(size, pieces, a)).finite() && group(size, pieces, a).len() <= n
}

/// The size of `player`'s largest connected group.
pub open spec fn largest_group(state: GameState, player: Player) -> int {
    choose|n: int| is_largest_group(state.config.board_size as int, state.spec_pieces(player), n)
}

proof fn lemma_largest_group_unique(size: int, pieces: u64, a: int, b: int)
    requires
        is_largest_group(size, pieces, a),
        is_largest_group(size, pieces, b),
    ensures
        a == b,
{
    if bit_count(pieces) > 0 {
        let x = choose|x: int| has_bit(pieces, x) && #[trigger] group(size, pieces, x).len() == a;
        let y = choose|y: int| has_bit(pieces, y) && #[trigger] group(size, pieces, y).len() == b;
        assert(group(size, pieces, x).len() <= b);
        assert(group(size, pieces, y).len() <= a);
    }
}

proof fn lemma_adjacent_symmetric(size: int, a: int, b: int)
    requires
        3 <= size <= 8,
        adjacent(size, a, b),
    ensures
        adjacent(size, b, a),
{
    crate::geometry::lemma_geometry(size, a);
    let q = a / size;
    let r = a % size;
    if q > 0 && b == a - size {
        assert(b == (q - 1) * size + r) by (nonlinear_arith)
            requires
                a == q * size + r,
                b == a - size,
        ;
        vstd::arithmetic::div_mod::lemma_fundamental_div_mod_converse(b, size, q - 1, r);
    } else if q + 1 < size && b == a + size {
        assert(b == (q + 1) * size + r) by (nonlinear_arith)
            requires
                a == q * size + r,
                b == a + size,
        ;
        vstd::arithmetic::div_mod::lemma_fundamental_div_mod_converse(b, size, q + 1, r);
    } else if r > 0 && b == a - 1 {
        vstd::arithmetic::div_mod::lemma_fundamental_div_mod_converse(b, size, q, r - 1);
    } else {
        vstd::arithmetic::div_mod::lemma_fundamental_div_mod_converse(b, size, q, r + 1);
    }
}

proof fn lemma_linked_self(size: int, pieces: u64, a: int)
    requires
        has_bit(pieces, a),
    ensures
        linked(size, pieces, a, a),
{
    let w = seq![a];
    assert(piece_chain(size, pieces, w));
}

proof fn lemma_linked_step(size: int, pieces: u64, a: int, b: int, c: int)
    requires
        linked(size, pieces, a, b),
        has_bit(pieces, c),
        adjacent(size, b, c),
    ensures
        linked(size, pieces, a, c),
{
    let w = choose|w: Seq<int>| #[trigger] piece_chain(size, pieces, w) && w[0] == a && w.last() == b;
    let v = w.push(c);
    assert forall|k: int| 0 <= k < v.len() - 1 implies adjacent(size, #[trigger] v[k], v[k + 1]) by {
        if k < w.len() - 1 {
            assert(v[k] == w[k] && v[k + 1] == w[k + 1]);
        }
    }
    assert forall|k: int| 0 <= k < v.len() implies has_bit(pieces, #[trigger] v[k]) by {
        if k < w.len() {
            assert(v[k] == w[k]);
        }
    }
    assert(piece_chain(size, pieces, v));
}

proof fn lemma_linked_symmetric(size: int, pieces: u64, a: int, b: int)
    requires
        3 <= size <= 8,
        linked(size, pieces, a, b),
    ensures
        linked(size, pieces, b, a),
{
    let w = choose|w: Seq<int>| #[trigger] piece_chain(size, pieces, w) && w[0] == a && w.last() == b;
    let v = w.reverse();
    assert forall|k: int| 0 <= k < v.len() - 1 implies adjacent(size, #[trigger] v[k], v[k + 1]) by {
        let j = w.len() - 2 - k;
        assert(adjacent(size, w[j], w[j + 1]));
        lemma_adjacent_symmetric(size, w[j], w[j + 1]);
    }
    assert forall|k: int| 0 <= k < v.len() implies has_bit(pieces, #[trigger] v[k]) by {
        assert(v[k] == w[w.len() - 1 - k]);
    }
    assert(piece_chain(size, pieces, v));
}

#[verifier::spinoff_prover]
proof fn lemma_linked_transitive(size: int, pieces: u64, a: int, b: int, c: int)
    requires
        linked(size, pieces, a, b),
        linked(size, pieces, b, c),
    ensures
        linked(size, pieces, a, c),
    decreases 0nat,
{
    let w1 = choose|w: Seq<int>| #[trigger] piece_chain(size, pieces, w) && w[0] == a && w.last() == b;
    let w2 = choose|w: Seq<int>| #[trigger] piece_chain(size, pieces, w) && w[0] == b && w.last() == c;
    let v = w1 + w2.drop_first();
    assert forall|k: int| 0 <= k < v.len() - 1 implies adjacent(size, #[trigger] v[k], v[k + 1]) by {
        if k < w1.len() - 1 {
            assert(v[k] == w1[k] && v[k + 1] == w1[k + 1]);
        } else {
            let j = k - w1.len() + 1;
            assert(v[k] == w2[j]);
            assert(v[k + 1] == w2[j + 1]);
        }
    }
    assert forall|k: int| 0 <= k < v.len() implies has_bit(pieces, #[trigger] v[k]) by {
        if k < w1.len() {
            assert(v[k] == w1[k]);
        } else {
            assert(v[k] == w2[k - w1.len() + 1]);
        }
    }
    assert(piece_chain(size, pieces, v));
}

/// A set closed under adjacency among `pieces` holds every square linked to
/// one of its squares.
proof fn lemma_closed_holds_linked(size: int, pieces: u64, region: Set<int>, a: int, w: Seq<int>, i: int)
    requires
        region.contains(a),
        forall|x: int, y: int| #[trigger] region.contains(x) && has_bit(pieces, y) && adjacent(size, x, y) ==> #[trigger] region.contains(y),
        piece_chain(size, pieces, w),
        w[0] == a,
        0 <= i < w.len(),
    ensures
        region.contains(w[i]),
    decreases i,
{
    if i > 0 {
        lemma_closed_holds_linked(size, pieces, region, a, w, i - 1);
        assert(adjacent(size, w[i - 1], w[i]));
        assert(has_bit(pieces, w[i]));
    }
}

/// Taking a closed region out of a mask closed under adjacency leaves it
/// closed.
proof fn lemma_region_split(size: int, pieces: u64, before: u64, after: u64, region: Set<int>)
    requires
        3 <= size <= 8,
        forall|x: int, y: int|
            has_bit(pieces, x) && has_bit(pieces, y) && #[trigger] adjacent(size, x, y) ==> has_bit(before, x)
                == has_bit(before, y),
        forall|j: int| #[trigger] has_bit(after, j) ==> has_bit(before, j),
        forall|x: int| (has_bit(before, x) && !has_bit(after, x)) == #[trigger] region.contains(x),
        forall|x: int, y: int| #[trigger] region.contains(x) && has_bit(pieces, y) && adjacent(size, x, y)
            ==> #[trigger] region.contains(y),
    ensures
        forall|x: int, y: int|
            has_bit(pieces, x) && has_bit(pieces, y) && #[trigger] adjacent(size, x, y) ==> has_bit(after, x)
                == has_bit(after, y),
{
    assert forall|x: int, y: int|
        has_bit(pieces, x) && has_bit(pieces, y) && #[trigger] adjacent(size, x, y) implies has_bit(after, x)
            == has_bit(after, y) by {
        if region.contains(x) {
            assert(region.contains(y));
        } else if region.contains(y) {
            lemma_adjacent_symmetric(size, x, y);
            assert(region.contains(x));
        } else {
            assert(has_bit(before, x) == has_bit(before, y));
        }
    }
}

/// The size of the largest orthogonally connected group of `player`'s pieces.
#[verifier::rlimit(60)]
pub fn largest_component(state: GameState, player: Player) -> (r: i32)
    requires
        board_ok(state),
    ensures
        0 <= r <= bit_count(state.spec_pieces(player)),
        (r == 0) == (bit_count(state.spec_pieces(player)) == 0),
        is_largest_group(state.config.board_size as int, state.spec_pieces(player), r as int),
        r == largest_group(state, player),
{
    let board_size = state.config.board_size;
    let ghost size = board_size as int;
    let pieces = state.pieces(player);
    let ghost total = bit_count(pieces);
    let mut remaining = pieces;
    let mut largest: i32 = 0;
    let mut done: i32 = 0;
    proof {
        lemma_squares_below(pieces, 64);
    }
    while remaining != 0
        invariant
            board_ok(state),
            board_size == state.config.board_size,
            size == board_size,
            pieces == state.spec_pieces(player),
            total == bit_count(pieces),
            total <= 64,
            0 <= largest <= done,
            done + bit_count(remaining) == total,
            (largest == 0) == (done == 0),
            forall|j: int| #[trigger] has_bit(remaining, j) ==> has_bit(pieces, j),
            forall|x: int, y: int|
                has_bit(pieces, x) && has_bit(pieces, y) && #[trigger] adjacent(size, x, y) ==> has_bit(remaining, x)
                    == has_bit(remaining, y),
            forall|x: int|
                has_bit(pieces, x) && !has_bit(remaining, x) ==> (#[trigger] group(size, pieces, x)).finite() && group(
                    size,
                    pieces,
                    x,
                ).len() <= largest,
            largest > 0 ==> exists|x: int|
                has_bit(pieces, x) && !has_bit(remaining, x) && #[trigger] group(size, pieces, x).len() == largest,
        decreases bit_count(remaining),
    {
        let remaining0 = remaining;
        let first = lowest_square(remaining);
        proof {
            lemma_clear_square(remaining, first as int);
        }
        remaining = remaining & !bit(first);
        let mut stack: Vec<u8> = Vec::new();
        stack.push(first);
        let mut size_now: i32 = 0;
        let ghost mut region: Set<int> = Set::empty().insert(first as int);
        proof {
            lemma_linked_self(size, pieces, first as int);
            assert(stack@[0] == first);
            assert(stack@.contains(first));
        }
        while stack.len() != 0
            invariant
                board_ok(state),
                board_size == state.config.board_size,
                size == board_size,
                total <= 64,
                0 <= largest <= done,
                done + size_now + stack.len() + bit_count(remaining) == total,
                (largest == 0) == (done == 0),
                forall|j: int| #[trigger] has_bit(remaining, j) ==> has_bit(pieces, j),
                forall|k: int| 0 <= k < stack.len() ==> #[trigger] stack@[k] < 64,
                size_now + stack.len() >= 1,
                size_now >= 0,
                region.finite(),
                region.len() == size_now + stack.len(),
                region.contains(first as int),
                forall|j: int| #[trigger] has_bit(remaining, j) ==> has_bit(remaining0, j),
                forall|x: int| (has_bit(remaining0, x) && !has_bit(remaining, x)) == #[trigger] region.contains(x),
                forall|x: int| #[trigger] region.contains(x) ==> linked(size, pieces, first as int, x),
                forall|k: int| 0 <= k < stack.len() ==> region.contains(#[trigger] stack@[k] as int),
                forall|x: int, y: int|
                    #[trigger] region.contains(x) && has_bit(pieces, y) && #[trigger] adjacent(size, x, y) && has_bit(remaining, y)
                        ==> stack@.contains(x as u8),
            decreases bit_count(remaining), stack.len(),
        {
            let ghost before = bit_count(remaining);
            let ghost stack_before = stack@;
            let square = stack.pop().unwrap();
            proof {
                assert(stack_before[stack_before.len() - 1] == square);
                assert forall|x: u8| stack_before.contains(x) && x != square implies stack@.contains(x) by {
                    let w = choose|w: int| 0 <= w < stack_before.len() && stack_before[w] == x;
                    assert(stack@[w] == x);
                }
                assert(region.contains(square as int));
            }
            size_now = size_now + 1;
            proof {
                lemma_cells(board_size as int);
            }
            let neighbors: u64 = if square < board_size * board_size {
                neighbor_mask_for(board_size, square)
            } else {
                0
            };
            let mut adjacent_left = neighbors & remaining;
            proof {
                assert forall|j: int| #[trigger] has_bit(adjacent_left, j) implies has_bit(remaining, j) && adjacent(
                    size,
                    square as int,
                    j,
                ) by {
                    lemma_has_bit_and(neighbors, remaining, j);
                    if square >= board_size * board_size {
                        lemma_has_bit_zero(j);
                    }
                }
                assert forall|j: int| has_bit(remaining, j) && #[trigger] adjacent(size, square as int, j) implies has_bit(
                    adjacent_left,
                    j,
                ) by {
                    lemma_has_bit_and(neighbors, remaining, j);
                }
            }
            while adjacent_left != 0
                invariant
                    size == board_size,
                    3 <= size <= 8,
                    total <= 64,
                    0 <= largest <= done,
                    done + size_now + stack.len() + bit_count(remaining) == total,
                    forall|j: int| #[trigger] has_bit(remaining, j) ==> has_bit(pieces, j),
                    forall|j: int| #[trigger] has_bit(adjacent_left, j) ==> has_bit(remaining, j) && adjacent(
                        size,
                        square as int,
                        j,
                    ),
                    forall|j: int| has_bit(remaining, j) && #[trigger] adjacent(size, square as int, j) ==> has_bit(
                        adjacent_left,
                        j,
                    ),
                    forall|k: int| 0 <= k < stack.len() ==> #[trigger] stack@[k] < 64,
                    size_now >= 1,
                    bit_count(remaining) <= before,
                    region.finite(),
                    region.len() == size_now + stack.len(),
                    region.contains(square as int),
                    region.contains(first as int),
                    forall|j: int| #[trigger] has_bit(remaining, j) ==> has_bit(remaining0, j),
                    forall|x: int| (has_bit(remaining0, x) && !has_bit(remaining, x)) == #[trigger] region.contains(x),
                    forall|x: int| #[trigger] region.contains(x) ==> linked(size, pieces, first as int, x),
                    forall|k: int| 0 <= k < stack.len() ==> region.contains(#[trigger] stack@[k] as int),
                    forall|x: int, y: int|
                        #[trigger] region.contains(x) && has_bit(pieces, y) && #[trigger] adjacent(size, x, y) && has_bit(remaining, y)
                            ==> stack@.contains(x as u8) || x == square,
                decreases bit_count(adjacent_left),
            {
                let next = lowest_square(adjacent_left);
                proof {
                    lemma_clear_square(adjacent_left, next as int);
                    lemma_clear_square(remaining, next as int);
                    assert(!region.contains(next as int));
                    lemma_linked_step(size, pieces, first as int, square as int, next as int);
                }
                let ghost stack_mid = stack@;
                adjacent_left = adjacent_left & !bit(next);
                remaining = remaining & !bit(next);
                stack.push(next);
                proof {
                    region = region.insert(next as int);
                    assert forall|x: u8| stack_mid.contains(x) implies stack@.contains(x) by {
                        let w = choose|w: int| 0 <= w < stack_mid.len() && stack_mid[w] == x;
                        assert(stack@[w] == x);
                    }
                    assert(stack@[stack@.len() - 1] == next);
                }
            }
            proof {
                assert forall|x: int, y: int|
                    #[trigger] region.contains(x) && has_bit(pieces, y) && #[trigger] adjacent(size, x, y) && has_bit(remaining, y)
                        implies stack@.contains(x as u8) by {
                    if x == square {
                        assert(has_bit(adjacent_left, y));
                        lemma_has_bit_zero(y);
                    }
                }
            }
        }
        proof {
            assert forall|x: int, y: int| #[trigger] region.contains(x) && has_bit(pieces, y) && adjacent(size, x, y)
                implies #[trigger] region.contains(y) by {
                if has_bit(remaining, y) {
                    assert(stack@.contains(x as u8));
                }
                assert(has_bit(remaining0, x));
                assert(has_bit(remaining0, y));
            }
            assert(region =~= group(size, pieces, first as int)) by {
                assert forall|b: int| #[trigger] group(size, pieces, first as int).contains(b) implies region.contains(b) by {
                    let w = choose|w: Seq<int>| #[trigger] piece_chain(size, pieces, w) && w[0] == first as int && w.last() == b;
                    lemma_closed_holds_linked(size, pieces, region, first as int, w, w.len() - 1);
                }
            }
            assert forall|x: int| #[trigger] region.contains(x) implies group(size, pieces, x) == region by {
                lemma_linked_symmetric(size, pieces, first as int, x);
                assert forall|b: int| group(size, pieces, x).contains(b) == region.contains(b) by {
                    if linked(size, pieces, x, b) {
                        lemma_linked_transitive(size, pieces, first as int, x, b);
                    }
                    if linked(size, pieces, first as int, b) {
                        lemma_linked_transitive(size, pieces, x, first as int, b);
                    }
                }
                assert(group(size, pieces, x) =~= region);
            }
        }
        let ghost old_largest = largest;
        if size_now > largest {
            largest = size_now;
        }
        done = done + size_now;
        proof {
            assert(region.contains(first as int));
            assert(group(size, pieces, first as int).len() == size_now);
            lemma_region_split(size, pieces, remaining0, remaining, region);
            assert forall|x: int|
                has_bit(pieces, x) && !has_bit(remaining, x) implies (#[trigger] group(size, pieces, x)).finite() && group(
                size,
                pieces,
                x,
            ).len() <= largest by {
                if region.contains(x) {
                    assert(group(size, pieces, x) == region);
                } else {
                    assert(!has_bit(remaining0, x));
                }
            }
            if largest > 0 {
                if largest == size_now {
                    assert(group(size, pieces, first as int).len() == largest);
                    assert(!has_bit(remaining, first as int));
                } else {
                    let x = choose|x: int|
                        has_bit(pieces, x) && !has_bit(remaining0, x) && #[trigger] group(size, pieces, x).len() == old_largest;
                    assert(!region.contains(x));
                }
            }
        }
    }
    proof {
        lemma_count_below_single(0, 64);
        assert forall|a: int| has_bit(pieces, a) implies (#[trigger] group(size, pieces, a)).finite() && group(
            size,
            pieces,
            a,
        ).len() <= largest by {
            lemma_has_bit_zero(a);
        }
        assert(is_largest_group(size, pieces, largest as int));
        lemma_largest_group_unique(size, pieces, largest as int, largest_group(state, player));
    }
    largest
}

/// Opponent pieces that some empty square below `n` would let `player`
/// capture.
pub open spec fn capture_union(state: GameState, player: Player, n: nat) -> u64
    decreases n,
{
    if n == 0 {
        0
    } else {
        let rest = capture_union(state, player, (n - 1) as nat);
        if has_bit(state.light | state.dark | state.forbidden, n - 1) {
            rest
        } else {
            rest | state.spec_captures((n - 1) as u8, player)
        }
    }
}

/// How many opponent pieces `player` threatens to capture.
pub open spec fn spec_capture_opportunities(state: GameState, player: Player) -> int {
    bit_count(capture_union(state, player, state.config.spec_cells() as nat)) as int
}

pub fn capture_opportunities(state: GameState, player: Player) -> (r: i32)
    requires
        board_ok(state),
    ensures
        r == spec_capture_opportunities(state, player),
        0 <= r <= 64,
{
    let occupied = state.light | state.dark | state.forbidden;
    let cells = state.config.cells();
    let mut victims: u64 = 0;
    let mut origin: u8 = 0;
    while origin < cells
        invariant
            board_ok(state),
            cells == state.config.spec_cells(),
            origin <= cells,
            occupied == state.light | state.dark | state.forbidden,
            victims == capture_union(state, player, origin as nat),
        decreases cells - origin,
    {
        if !test_bit(occupied, origin) {
            victims = victims | captures_from(state, origin, player);
        }
        origin = origin + 1;
    }
    popcount(victims) as i32
}

// ---------------------------------------------------------------------------
// Evaluation
// ---------------------------------------------------------------------------

/// Every heuristic (non-terminal) evaluation lies within this magnitude, far
/// below the scores of decided games.
pub const HEURISTIC_LIMIT: i32 = 600_000_000;

/// Pieces on the board, own less opponent's.
pub open spec fn material_balance(state: GameState, player: Player) -> int {
    bit_count(state.spec_pieces(player)) - bit_count(state.spec_pieces(player.opponent()))
}

/// The last capture, counted for the player who made it and against the
/// other.
pub open spec fn capture_swing(state: GameState, player: Player) -> int {
    (if state.last_player == Some(player) {
        1int
    } else {
        -1int
    }) * state.last_capture
}

/// The weighted sum of the six evaluation features.
pub open spec fn weighted_score(
    weights: EvaluationWeights,
    path: int,
    material: int,
    capture: int,
    structure: int,
    threats: int,
    edges: int,
) -> int {
    path * weights.path + material * weights.material + capture * weights.capture + structure
        * weights.structure + threats * weights.threat + edges * weights.edge
}

/// The heuristic value of a non-terminal position for `player`, given the
/// path and structure features.
pub open spec fn heuristic_value(
    state: GameState,
    player: Player,
    weights: EvaluationWeights,
    path: int,
    structure: int,
) -> int {
    let opponent = player.opponent();
    weighted_score(
        weights,
        path,
        material_balance(state, player),
        capture_swing(state, player),
        structure,
        spec_capture_opportunities(state, player) - spec_capture_opportunities(state, opponent),
        spec_edge_presence(state, player) - spec_edge_presence(state, opponent),
    )
}

/// The path term of the evaluation: how much further the opponent is from
/// joining its edges than `player`.
pub open spec fn path_term(state: GameState, player: Player) -> int {
    join_cost(state, player.opponent()) - join_cost(state, player)
}

/// The structure term of the evaluation: how much larger `player`'s
/// largest connected group is than the opponent's.
pub open spec fn structure_term(state: GameState, player: Player) -> int {
    largest_group(state, player) - largest_group(state, player.opponent())
}

/// The heuristic value of an undecided position: its path and structure
/// terms with the other weighted features.
pub open spec fn position_value(state: GameState, player: Player, weights: EvaluationWeights) -> int {
    heuristic_value(state, player, weights, path_term(state, player), structure_term(state, player))
}

proof fn lemma_signed(positive: bool, n: int)
    ensures
        (if positive { 1int } else { -1int }) * n == if positive { n } else { -n },
{
    if positive {
        assert(1int * n == n);
    } else {
        assert(-1int * n == -n);
    }
}

proof fn lemma_one_of_two(x: Player, player: Player)
    ensures
        x == player || x == player.opponent(),
{
    match x {
        Player::Light => {},
        Player::Dark => {},
    }
    match player {
        Player::Light => {},
        Player::Dark => {},
    }
}

/// The evaluation is zero-sum: what one player gains, the other loses. A
/// decided game scores opposite values for the two players, and so does an
/// undecided one whenever its last capture is attributed to a player.
pub proof fn lemma_evaluation_zero_sum(state: GameState, player: Player, weights: EvaluationWeights)
    requires
        state.last_player is Some || state.last_capture == 0,
    ensures
        position_value(state, player, weights) == -position_value(
            state,
            player.opponent(),
            weights,
        ),
        state.winner is Some ==> terminal_score(state, player) == -terminal_score(
            state,
            player.opponent(),
        ),
{
    let opponent = player.opponent();
    assert(opponent.opponent() == player);
    let a = path_term(state, player);
    let b = material_balance(state, player);
    let c = capture_swing(state, player);
    let d = structure_term(state, player);
    let e = spec_capture_opportunities(state, player) - spec_capture_opportunities(state, opponent);
    let f = spec_edge_presence(state, player) - spec_edge_presence(state, opponent);
    assert(path_term(state, opponent) == -a);
    assert(material_balance(state, opponent) == -b);
    assert(capture_swing(state, opponent) == -c) by {
        let lc = state.last_capture as int;
        if state.last_capture == 0 {
            assert(c == 0 && capture_swing(state, opponent) == 0) by (nonlinear_arith)
                requires
                    lc == 0,
                    c == (if state.last_player == Some(player) { 1int } else { -1int }) * lc,
                    capture_swing(state, opponent) == (if state.last_player == Some(opponent) {
                        1int
                    } else {
                        -1int
                    }) * lc,
            ;
        } else {
            let x = state.last_player->0;
            lemma_one_of_two(x, player);
            lemma_signed(state.last_player == Some(player), lc);
            lemma_signed(state.last_player == Some(opponent), lc);
            assert(player != opponent) by {
                match player {
                    Player::Light => {},
                    Player::Dark => {},
                }
            }
        }
    }
    if state.winner is Some {
        let x = state.winner->0;
        lemma_one_of_two(x, player);
    }
    assert(structure_term(state, opponent) == -d);
    assert(weighted_score(weights, -a, -b, -c, -d, -e, -f) == -weighted_score(
        weights,
        a,
        b,
        c,
        d,
        e,
        f,
    )) by (nonlinear_arith);
}

/// The score of a decided game for `player`: quicker wins and slower losses
/// score higher.
pub open spec fn terminal_score(state: GameState, player: Player) -> int {
    if state.winner == Some(player) {
        WIN_SCORE - state.ply
    } else {
        -WIN_SCORE + state.ply
    }
}

proof fn lemma_term_bound(a: int, w: int, a_max: int)
    requires
        -a_max <= a <= a_max,
        -MAX_WEIGHT <= w <= MAX_WEIGHT,
        0 <= a_max,
    ensures
        -a_max * MAX_WEIGHT <= a * w <= a_max * MAX_WEIGHT,
{
    assert(-a_max * MAX_WEIGHT <= a * w <= a_max * MAX_WEIGHT) by (nonlinear_arith)
        requires
            -a_max <= a <= a_max,
            -MAX_WEIGHT <= w <= MAX_WEIGHT,
            0 <= a_max,
            MAX_WEIGHT == 1_000_000,
    ;
}

/// What `evaluate` returns for a position: the terminal score of a decided
/// game, otherwise a bounded weighted sum of the features.
pub open spec fn is_evaluation(state: GameState, player: Player, weights: EvaluationWeights, r: int) -> bool {
    &&& state.winner == Some(player) || state.winner == Some(player.opponent()) ==> r == terminal_score(
        state,
        player,
    )
    &&& state.winner is None ==> r == position_value(state, player, weights)
    &&& state.winner is None ==> -HEURISTIC_LIMIT <= r <= HEURISTIC_LIMIT
}

/// `evaluate` is zero-sum: the scores it gives one position for the two
/// players are opposite, whenever the position's last capture is attributed
/// to a player.
pub proof fn law_evaluate_zero_sum(
    state: GameState,
    player: Player,
    weights: EvaluationWeights,
    mine: int,
    theirs: int,
)
    requires
        state.last_player is Some || state.last_capture == 0,
        is_evaluation(state, player, weights, mine),
        is_evaluation(state, player.opponent(), weights, theirs),
    ensures
        mine == -theirs,
{
    lemma_evaluation_zero_sum(state, player, weights);
    law_opponent_involution(player);
    match state.winner {
        Some(w) => {
            match (w, player) {
                (Player::Light, Player::Light) => {},
                (Player::Light, Player::Dark) => {},
                (Player::Dark, Player::Light) => {},
                (Player::Dark, Player::Dark) => {},
            }
        },
        None => {},
    }
}

/// Scores a position for `player`: a decided game scores near the win
/// score, any other position by its weighted features.
pub fn evaluate(state: GameState, player: Player, weights: EvaluationWeights) -> (r: i32)
    requires
        board_ok(state),
        weights.fits(),
    ensures
        state.winner == Some(player) || state.winner == Some(player.opponent()) ==> r
            == terminal_score(state, player),
        state.winner is None ==> r == position_value(state, player, weights),
        state.winner is None ==> -HEURISTIC_LIMIT <= r <= HEURISTIC_LIMIT,
        is_evaluation(state, player, weights, r as int),
{
    if state.winner == Some(player) {
        return WIN_SCORE - state.ply as i32;
    }
    let opponent = player.other();
    if state.winner == Some(opponent) {
        return -WIN_SCORE + state.ply as i32;
    }
    proof {
        lemma_cells(state.config.board_size as int);
    }
    let path = connection_distance(state, opponent) - connection_distance(state, player);
    let material = popcount(state.pieces(player)) as i32 - popcount(state.pieces(opponent)) as i32;
    let capture_direction: i32 = if state.last_player == Some(player) {
        1
    } else {
        -1
    };
    let capture = capture_direction * state.last_capture as i32;
    let structure = largest_component(state, player) - largest_component(state, opponent);
    let threats = capture_opportunities(state, player) - capture_opportunities(state, opponent);
    let edges = edge_presence(state, player) - edge_presence(state, opponent);
    proof {
        lemma_squares_below(state.spec_pieces(player), 64);
        lemma_squares_below(state.spec_pieces(opponent), 64);
        lemma_term_bound(path as int, weights.path as int, 64);
        lemma_term_bound(material as int, weights.material as int, 64);
        lemma_term_bound(capture as int, weights.capture as int, 255);
        lemma_term_bound(structure as int, weights.structure as int, 64);
        lemma_term_bound(threats as int, weights.threat as int, 64);
        lemma_term_bound(edges as int, weights.edge as int, 2);
    }
    let r = path * weights.path + material * weights.material + capture * weights.capture
        + structure * weights.structure + threats * weights.threat + edges * weights.edge;
    proof {
        assert(r == heuristic_value(state, player, weights, path as int, structure as int));
        assert(r == position_value(state, player, weights));
    }
    r
}

// ---------------------------------------------------------------------------
// Clock
// ---------------------------------------------------------------------------

/// A point on the monotonic clock, as `std::time::Instant` keeps it.
#[verifier::external_type_specification]
#[verifier::external_body]
pub struct ExInstant(std::time::Instant);

/// Reads the clock (`std::time::Instant::now`). Nothing is stated of the
/// result: it depends on when the call is made.
#[verifier::external_body]
fn clock_now() -> std::time::Instant {
    std::time::Instant::now()
}

/// A span of `milliseconds` milliseconds (`std::time::Duration::from_millis`).
/// The span is opaque here, so nothing is stated of it.
#[verifier::external_body]
fn span_of_millis(milliseconds: u64) -> std::time::Duration {
    std::time::Duration::from_millis(milliseconds)
}

/// The instant `span` after `start`, or `None` where the clock cannot
/// represent it (`std::time::Instant::checked_add`). Both values are opaque
/// here, so nothing is stated of the result.
#[verifier::external_body]
fn instant_after(start: std::time::Instant, span: std::time::Duration) -> Option<std::time::Instant> {
    start.checked_add(span)
}

/// Whether `now` is at or past `deadline` (`>=` on `std::time::Instant`).
/// Both values are opaque here, so nothing is stated of the result.
#[verifier::external_body]
fn instant_reached(now: &std::time::Instant, deadline: &std::time::Instant) -> bool {
    *now >= *deadline
}

/// The deadline `milliseconds` from now; `None` where the clock cannot
/// represent it.
fn deadline_after_ms(milliseconds: u32) -> Option<std::time::Instant> {
    instant_after(clock_now(), span_of_millis(milliseconds as u64))
}

fn deadline_reached(deadline: &std::time::Instant) -> bool {
    let now = clock_now();
    instant_reached(&now, deadline)
}

// ---------------------------------------------------------------------------
// Search state: budget, transposition table, move-ordering hints
// ---------------------------------------------------------------------------

/// The largest node budget a search accepts: its counters cannot overflow.
pub const MAX_NODE_BUDGET: u64 = 0x1000_0000_0000_0000;

struct Budget {
    nodes: u64,
    exhausted: bool,
    table_hits: u64,
    deadline: Option<std::time::Instant>,
}

/// A budget without a deadline is marked exhausted only once its nodes
/// reach `max_nodes`.
spec fn spent_honestly(budget: Budget, max_nodes: u64) -> bool {
    budget.deadline is None && budget.exhausted ==> budget.nodes >= max_nodes
}

impl Budget {
    fn new(deadline: Option<std::time::Instant>) -> (r: Budget)
        ensures
            r.nodes == 0,
            !r.exhausted,
            r.table_hits == 0,
            r.deadline == deadline,
    {
        Budget { nodes: 0, exhausted: false, table_hits: 0, deadline }
    }

    fn count_node(&mut self)
        requires
            old(self).nodes < u64::MAX,
        ensures
            final(self).nodes == old(self).nodes + 1,
            final(self).exhausted == old(self).exhausted,
            final(self).table_hits == old(self).table_hits,
            final(self).deadline == old(self).deadline,
    {
        self.nodes = self.nodes + 1;
    }

    /// Whether the node budget or the deadline is spent; once it is, the
    /// budget stays marked exhausted.
    fn reached(&mut self, max_nodes: u64) -> (r: bool)
        ensures
            final(self).nodes == old(self).nodes,
            final(self).table_hits == old(self).table_hits,
            final(self).deadline == old(self).deadline,
            old(self).nodes >= max_nodes ==> r,
            !r ==> old(self).nodes < max_nodes,
            old(self).deadline is None ==> r == (old(self).nodes >= max_nodes),
            final(self).exhausted == (old(self).exhausted || r),
    {
        let over = self.nodes >= max_nodes || match &self.deadline {
            Some(deadline) => deadline_reached(deadline),
            None => false,
        };
        if over {
            self.exhausted = true;
        }
        over
    }
}

/// What a stored score bounds: the exact value, or a bound from below or
/// above.
#[derive(Clone, Copy)]
enum Bound {
    Exact,
    Lower,
    Upper,
}

#[derive(Clone, Copy)]
struct TableEntry {
    depth: u8,
    score: i32,
    bound: Bound,
    best_action: Option<Action>,
}

struct TableSlot {
    state: GameState,
    root: Player,
    entry: TableEntry,
}

/// Every score the table holds lies strictly inside the search bounds.
spec fn table_ok(table: Map<u128, Vec<TableSlot>>) -> bool {
    forall|key: u128, i: int|
        #![trigger table[key]@[i]]
        table.contains_key(key) && 0 <= i < table[key]@.len() ==> NEG_INF < table[key]@[i].entry.score
            < POS_INF
}

/// The bucket of a position: its light pieces in the high 64 bits, its dark
/// pieces in the low 64 bits.
spec fn spec_table_key(state: GameState) -> u128 {
    ((state.light as u128) << 64u128) | (state.dark as u128)
}

fn table_key(state: GameState) -> (r: u128)
    ensures
        r == spec_table_key(state),
        r as int == state.light as int * 0x1_0000_0000_0000_0000 + state.dark as int,
{
    let light = state.light;
    let dark = state.dark;
    assert(((light as u128) << 64u128) | (dark as u128) == (light as u128) * 0x1_0000_0000_0000_0000u128
        + (dark as u128)) by (bit_vector);
    ((light as u128) << 64u128) | (dark as u128)
}

/// The slot holds the search result of `state` for `root`.
spec fn slot_for(slot: TableSlot, state: GameState, root: Player) -> bool {
    same_position(slot.state, state) && slot.root == root
}

/// The slots of the bucket that `key` names; none where the table has no
/// such bucket.
spec fn bucket_of(table: Map<u128, Vec<TableSlot>>, key: u128) -> Seq<TableSlot> {
    if table.contains_key(key) {
        table[key]@
    } else {
        Seq::empty()
    }
}

/// `i` is the first slot of `bucket` that holds `state` for `root`.
spec fn first_slot(bucket: Seq<TableSlot>, state: GameState, root: Player, i: int) -> bool {
    &&& 0 <= i < bucket.len()
    &&& slot_for(bucket[i], state, root)
    &&& forall|j: int| 0 <= j < i ==> !slot_for(#[trigger] bucket[j], state, root)
}

/// The bucket after storing `entry` for `state` and `root`: the first slot
/// of the position is overwritten, or a new slot is appended.
spec fn put_bucket(bucket: Seq<TableSlot>, state: GameState, root: Player, entry: TableEntry) -> Seq<TableSlot> {
    let slot = TableSlot { state, root, entry };
    if exists|i: int| first_slot(bucket, state, root, i) {
        bucket.update(choose|i: int| first_slot(bucket, state, root, i), slot)
    } else {
        bucket.push(slot)
    }
}

proof fn lemma_first_slot_unique(bucket: Seq<TableSlot>, state: GameState, root: Player, i: int, j: int)
    requires
        first_slot(bucket, state, root, i),
        first_slot(bucket, state, root, j),
    ensures
        i == j,
{
    if i < j {
        assert(!slot_for(bucket[i], state, root));
    } else if j < i {
        assert(!slot_for(bucket[j], state, root));
    }
}

fn table_get(table: &HashMap<u128, Vec<TableSlot>>, state: GameState, root: Player) -> (r: Option<
    TableEntry,
>)
    requires
        table_ok(table@),
    ensures
        r matches Some(entry) ==> NEG_INF < entry.score < POS_INF,
        ({
            let bucket = bucket_of(table@, spec_table_key(state));
            &&& r is None <==> forall|i: int| 0 <= i < bucket.len() ==> !slot_for(#[trigger] bucket[i], state, root)
            &&& r matches Some(entry) ==> exists|i: int| first_slot(bucket, state, root, i) && bucket[i].entry == entry
        }),
{
    broadcast use vstd::std_specs::hash::group_hash_axioms;

    let key = table_key(state);
    match table.get(&key) {
        Some(bucket) => {
            assert(bucket_of(table@, key) == bucket@);
            let mut i: usize = 0;
            while i < bucket.len()
                invariant
                    table_ok(table@),
                    key == spec_table_key(state),
                    bucket_of(table@, key) == bucket@,
                    table@.contains_key(key),
                    table@[key] == *bucket,
                    i <= bucket@.len(),
                    forall|j: int| 0 <= j < i ==> !slot_for(#[trigger] bucket@[j], state, root),
                decreases bucket@.len() - i,
            {
                let slot = &bucket[i];
                if same_position_exec(&slot.state, &state) && slot.root == root {
                    assert(NEG_INF < table@[key]@[i as int].entry.score < POS_INF);
                    assert(first_slot(bucket@, state, root, i as int));
                    assert(slot_for(bucket@[i as int], state, root));
                    return Some(slot.entry);
                }
                i = i + 1;
            }
            None
        },
        None => {
            assert(bucket_of(table@, key) =~= Seq::<TableSlot>::empty());
            None
        },
    }
}

fn table_put(
    table: &mut HashMap<u128, Vec<TableSlot>>,
    state: GameState,
    root: Player,
    entry: TableEntry,
)
    requires
        table_ok(old(table)@),
        NEG_INF < entry.score < POS_INF,
    ensures
        table_ok(final(table)@),
        ({
            let key = spec_table_key(state);
            &&& final(table)@.contains_key(key)
            &&& final(table)@[key]@ == put_bucket(bucket_of(old(table)@, key), state, root, entry)
            &&& forall|k: u128| k != key ==> (#[trigger] final(table)@.contains_key(k) == old(table)@.contains_key(k))
            &&& forall|k: u128| k != key && #[trigger] old(table)@.contains_key(k) ==> final(table)@[k] == old(table)@[k]
        }),
{
    broadcast use vstd::std_specs::hash::group_hash_axioms;

    let key = table_key(state);
    let ghost original = bucket_of(old(table)@, key);
    let mut bucket = match table.remove(&key) {
        Some(bucket) => bucket,
        None => Vec::new(),
    };
    assert(bucket@ == original);
    assert(forall|i: int| 0 <= i < bucket@.len() ==> NEG_INF < #[trigger] bucket@[i].entry.score < POS_INF) by {
        if old(table)@.contains_key(key) {
            assert forall|i: int| 0 <= i < bucket@.len() implies NEG_INF < #[trigger] bucket@[i].entry.score < POS_INF by {
                assert(old(table)@[key]@[i] == bucket@[i]);
            }
        }
    }
    let mut i: usize = 0;
    let mut found = false;
    while i < bucket.len()
        invariant_except_break
            !found,
        invariant
            i <= bucket@.len(),
            bucket@ == original,
            forall|j: int| 0 <= j < bucket@.len() ==> NEG_INF < #[trigger] bucket@[j].entry.score < POS_INF,
            forall|j: int| 0 <= j < i ==> !slot_for(#[trigger] bucket@[j], state, root),
        ensures
            i <= bucket@.len(),
            found ==> first_slot(original, state, root, i as int),
            !found ==> forall|j: int| 0 <= j < bucket@.len() ==> !slot_for(#[trigger] bucket@[j], state, root),
        decreases bucket@.len() - i,
    {
        if same_position_exec(&bucket[i].state, &state) && bucket[i].root == root {
            found = true;
            break;
        }
        i = i + 1;
    }
    if found && i < bucket.len() {
        proof {
            let c = choose|c: int| first_slot(original, state, root, c);
            lemma_first_slot_unique(original, state, root, i as int, c);
        }
        bucket.set(i, TableSlot { state, root, entry });
        assert(bucket@ == put_bucket(original, state, root, entry));
    } else {
        proof {
            assert(!exists|c: int| first_slot(original, state, root, c));
        }
        bucket.push(TableSlot { state, root, entry });
        assert(bucket@ == put_bucket(original, state, root, entry));
    }
    assert(forall|j: int| 0 <= j < bucket@.len() ==> NEG_INF < #[trigger] bucket@[j].entry.score < POS_INF);
    table.insert(key, bucket);
    assert forall|k: u128, j: int|
        #![trigger table@[k]@[j]]
        table@.contains_key(k) && 0 <= j < table@[k]@.len() implies NEG_INF < table@[k]@[j].entry.score
            < POS_INF by {
        if k != key {
            assert(old(table)@.contains_key(k));
            assert(old(table)@[k] == table@[k]);
        }
    }
}

/// Quiet moves that caused cut-offs, per ply, and a history score per
/// (ply, action, side).
struct SearchHints {
    killers: Vec<(Option<Action>, Option<Action>)>,
    history: HashMap<u64, i32>,
}

/// History scores stay between zero and a million.
spec fn history_ok(history: Map<u64, i32>) -> bool {
    forall|key: u64| #[trigger] history.contains_key(key) ==> 0 <= history[key] <= 1_000_000
}

impl SearchHints {
    fn new() -> (r: SearchHints)
        ensures
            history_ok(r.history@),
    {
        broadcast use vstd::std_specs::hash::group_hash_axioms;

        SearchHints { killers: Vec::new(), history: HashMap::new() }
    }

    /// The two killer moves stored for `ply`; none where nothing is stored.
    spec fn spec_killers_at(self, ply: int) -> (Option<Action>, Option<Action>) {
        if 0 <= ply < self.killers@.len() {
            self.killers@[ply]
        } else {
            (None, None)
        }
    }

    fn killers_at(&self, ply: usize) -> (r: (Option<Action>, Option<Action>))
        ensures
            r == self.spec_killers_at(ply as int),
    {
        if ply < self.killers.len() {
            self.killers[ply]
        } else {
            (None, None)
        }
    }

    fn record_killer(&mut self, ply: usize, action: Action)
        requires
            ply < 1024,
        ensures
            final(self).history@ == old(self).history@,
            final(self).killers@.len() == if ply < old(self).killers@.len() {
                old(self).killers@.len() as int
            } else {
                ply + 1
            },
            forall|p: int| 0 <= p < final(self).killers@.len() && p != ply ==> #[trigger] final(self).spec_killers_at(p)
                == old(self).spec_killers_at(p),
            final(self).spec_killers_at(ply as int) == if old(self).spec_killers_at(ply as int).0 == Some(action) {
                old(self).spec_killers_at(ply as int)
            } else {
                (Some(action), old(self).spec_killers_at(ply as int).0)
            },
    {
        while self.killers.len() <= ply
            invariant
                ply < 1024,
                self.history@ == old(self).history@,
                old(self).killers@.len() <= self.killers@.len(),
                self.killers@.len() <= if ply < old(self).killers@.len() {
                    old(self).killers@.len() as int
                } else {
                    ply + 1
                },
                forall|p: int| #[trigger] self.spec_killers_at(p) == old(self).spec_killers_at(p),
            decreases ply + 1 - self.killers.len(),
        {
            let ghost before = *self;
            self.killers.push((None, None));
            proof {
                assert forall|p: int| #[trigger] self.spec_killers_at(p) == old(self).spec_killers_at(p) by {
                    assert(before.spec_killers_at(p) == old(self).spec_killers_at(p));
                    if 0 <= p < before.killers@.len() {
                        assert(self.killers@[p] == before.killers@[p]);
                    }
                }
            }
        }
        let ghost mid = *self;
        let slot = self.killers[ply];
        assert(slot == old(self).spec_killers_at(ply as int)) by {
            assert(mid.spec_killers_at(ply as int) == old(self).spec_killers_at(ply as int));
        }
        let already = match slot.0 {
            Some(first) => first == action,
            None => false,
        };
        if !already {
            self.killers.set(ply, (Some(action), slot.0));
        }
        proof {
            assert forall|p: int| 0 <= p < self.killers@.len() && p != ply implies #[trigger] self.spec_killers_at(p)
                == old(self).spec_killers_at(p) by {
                assert(mid.spec_killers_at(p) == old(self).spec_killers_at(p));
                assert(self.killers@[p] == mid.killers@[p]);
            }
        }
    }

    /// The history slot of a move: ply, kind, action order and side packed
    /// into one number.
    spec fn spec_history_key(ply: int, action: Action, maximizing: bool) -> int {
        let kind: int = match action {
            Action::Place { .. } => 0,
            Action::Relocate { .. } => 1,
        };
        ((ply * 2 + kind) * 32768 + action.spec_order()) * 2 + if maximizing {
            1int
        } else {
            0int
        }
    }

    fn history_key(ply: usize, action: Action, maximizing: bool) -> (r: u64)
        requires
            ply < 1024,
        ensures
            r as int == Self::spec_history_key(ply as int, action, maximizing),
    {
        let kind: u64 = match action {
            Action::Place { .. } => 0,
            Action::Relocate { .. } => 1,
        };
        let side: u64 = if maximizing {
            1
        } else {
            0
        };
        (((ply as u64) * 2 + kind) * 32768 + action.order() as u64) * 2 + side
    }

    /// The history score of a move; zero where none is stored.
    spec fn spec_history_at(self, ply: int, action: Action, maximizing: bool) -> int {
        let key = Self::spec_history_key(ply, action, maximizing) as u64;
        if self.history@.contains_key(key) {
            self.history@[key] as int
        } else {
            0
        }
    }

    fn history_at(&self, ply: usize, action: Action, maximizing: bool) -> (r: i32)
        requires
            ply < 1024,
            history_ok(self.history@),
        ensures
            0 <= r <= 1_000_000,
            r == self.spec_history_at(ply as int, action, maximizing),
    {
        broadcast use vstd::std_specs::hash::group_hash_axioms;

        let key = Self::history_key(ply, action, maximizing);
        match self.history.get(&key) {
            Some(value) => {
                assert(self.history@.contains_key(key));
                *value
            },
            None => 0,
        }
    }

    fn record_history(&mut self, ply: usize, action: Action, maximizing: bool, depth: u8)
        requires
            ply < 1024,
            history_ok(old(self).history@),
        ensures
            history_ok(final(self).history@),
            final(self).killers@ == old(self).killers@,
            ({
                let bonus = if depth * depth < 1 {
                    1
                } else {
                    depth * depth
                };
                let raised = old(self).spec_history_at(ply as int, action, maximizing) + bonus;
                final(self).history@ == old(self).history@.insert(
                    Self::spec_history_key(ply as int, action, maximizing) as u64,
                    (if raised > 1_000_000 {
                        1_000_000
                    } else {
                        raised
                    }) as i32,
                )
            }),
    {
        broadcast use vstd::std_specs::hash::group_hash_axioms;

        proof {
            assert(depth * depth <= 255 * 255) by (nonlinear_arith)
                requires
                    depth <= 255,
            ;
        }
        let squared = depth as i32 * depth as i32;
        let bonus: i32 = if squared < 1 {
            1
        } else {
            squared
        };
        let key = Self::history_key(ply, action, maximizing);
        let current: i32 = match self.history.get(&key) {
            Some(value) => {
                assert(self.history@.contains_key(key));
                *value
            },
            None => 0,
        };
        let raised = current + bonus;
        let capped: i32 = if raised > 1_000_000 {
            1_000_000
        } else {
            raised
        };
        self.history.insert(key, capped);
    }
}

// ---------------------------------------------------------------------------
// Move ordering
// ---------------------------------------------------------------------------

/// Whether `a` sorts strictly before `b`: by score (descending or
/// ascending), then, where `by_order` is set, by action order.
pub open spec fn precedes(a: (Action, i32), b: (Action, i32), descending: bool, by_order: bool) -> bool {
    if a.1 != b.1 {
        if descending {
            a.1 > b.1
        } else {
            a.1 < b.1
        }
    } else {
        by_order && a.0.spec_order() < b.0.spec_order()
    }
}

/// No later item sorts strictly before an earlier one.
pub open spec fn ranked(items: Seq<(Action, i32)>, descending: bool, by_order: bool) -> bool {
    forall|i: int, j: int|
        0 <= i < j < items.len() ==> !precedes(#[trigger] items[j], #[trigger] items[i], descending, by_order)
}

proof fn lemma_precedes_order(a: (Action, i32), b: (Action, i32), c: (Action, i32), descending: bool, by_order: bool)
    ensures
        precedes(a, b, descending, by_order) ==> !precedes(b, a, descending, by_order),
        precedes(a, b, descending, by_order) && precedes(b, c, descending, by_order) ==> precedes(
            a,
            c,
            descending,
            by_order,
        ),
{
}

fn precedes_exec(a: (Action, i32), b: (Action, i32), descending: bool, by_order: bool) -> (r: bool)
    ensures
        r == precedes(a, b, descending, by_order),
{
    if a.1 != b.1 {
        if descending {
            a.1 > b.1
        } else {
            a.1 < b.1
        }
    } else {
        by_order && a.0.order() < b.0.order()
    }
}

/// A stable insertion sort: equal items keep their relative order.
pub(crate) fn sort_ranked(items: &Vec<(Action, i32)>, descending: bool, by_order: bool) -> (r: Vec<(Action, i32)>)
    ensures
        r@.to_multiset() == items@.to_multiset(),
        r@.len() == items@.len(),
        ranked(r@, descending, by_order),
{
    broadcast use vstd::seq_lib::group_to_multiset_ensures;

    let mut sorted: Vec<(Action, i32)> = Vec::new();
    let mut k: usize = 0;
    while k < items.len()
        invariant
            k <= items@.len(),
            sorted@.to_multiset() == items@.take(k as int).to_multiset(),
            sorted@.len() == k,
            ranked(sorted@, descending, by_order),
        decreases items@.len() - k,
    {
        let x = items[k];
        let mut p: usize = 0;
        while p < sorted.len() && !precedes_exec(x, sorted[p], descending, by_order)
            invariant
                p <= sorted@.len(),
                forall|q: int| 0 <= q < p ==> !precedes(x, #[trigger] sorted@[q], descending, by_order),
            decreases sorted@.len() - p,
        {
            p = p + 1;
        }
        let ghost before = sorted@;
        sorted.insert(p, x);
        proof {
            assert(items@.take(k as int + 1) =~= items@.take(k as int).push(x));
            vstd::seq_lib::to_multiset_build(items@.take(k as int), x);
            vstd::seq_lib::to_multiset_insert(before, p as int, x);
            assert forall|i: int, j: int| 0 <= i < j < sorted@.len() implies !precedes(
                #[trigger] sorted@[j],
                #[trigger] sorted@[i],
                descending,
                by_order,
            ) by {
                if j < p {
                    assert(sorted@[i] == before[i] && sorted@[j] == before[j]);
                } else if j == p {
                    assert(sorted@[i] == before[i]);
                } else if i > p {
                    assert(sorted@[i] == before[i - 1] && sorted@[j] == before[j - 1]);
                } else if i < p {
                    assert(sorted@[i] == before[i] && sorted@[j] == before[j - 1]);
                } else {
                    assert(sorted@[j] == before[j - 1]);
                    assert(precedes(x, before[p as int], descending, by_order));
                    lemma_precedes_order(before[j - 1], x, before[p as int], descending, by_order);
                    lemma_precedes_order(x, before[p as int], x, descending, by_order);
                    if j - 1 > p {
                        assert(!precedes(before[j - 1], before[p as int], descending, by_order));
                    }
                }
            }
        }
        k = k + 1;
    }
    proof {
        assert(items@.take(items@.len() as int) =~= items@);
    }
    sorted
}

/// Whether playing `action` wins the game for the mover at once.
pub open spec fn wins_at_once(state: GameState, action: Action) -> bool {
    state.spec_apply(action).state.winner == Some(state.turn)
}

/// The positions the search plays through: well formed, every piece
/// accounted for, and room for one more ply.
pub open spec fn playable(state: GameState) -> bool {
    &&& state.inventory_kept()
    &&& state.ply < u16::MAX
}

/// The score the move orderer gives `action`: decisive wins first, then
/// captures, then the evaluation of the resulting position for the root
/// player.
pub open spec fn move_order_score(
    state: GameState,
    action: Action,
    root_player: Player,
    weights: EvaluationWeights,
) -> int {
    let transition = state.spec_apply(action);
    if transition.state.winner == Some(state.turn) {
        2_000_000_000
    } else {
        bit_count(transition.captured) * 10_000 + position_value(transition.state, root_player, weights)
    }
}

/// `x` comes no later than `y` in the move order.
pub open spec fn order_le(
    state: GameState,
    root_player: Player,
    weights: EvaluationWeights,
    x: Action,
    y: Action,
) -> bool {
    let a = move_order_score(state, x, root_player, weights);
    let b = move_order_score(state, y, root_player, weights);
    &&& state.turn == root_player ==> b <= a
    &&& state.turn != root_player ==> a <= b
    &&& a == b ==> x.spec_order() <= y.spec_order()
}

/// `q` lists every legal action of `state` once, in the move order.
pub open spec fn is_move_sequence(
    state: GameState,
    root_player: Player,
    weights: EvaluationWeights,
    q: Seq<Action>,
) -> bool {
    &&& q.no_duplicates()
    &&& q.len() == state.spec_legal_actions().len()
    &&& forall|a: Action| #[trigger] q.contains(a) <==> state.spec_legal_actions().contains(a)
    &&& in_move_order(state, root_player, weights, q)
}

/// The legal actions of `state` in Pathfinder's move order.
pub open spec fn move_sequence(state: GameState, root_player: Player, weights: EvaluationWeights) -> Seq<Action> {
    choose|q: Seq<Action>| is_move_sequence(state, root_player, weights, q)
}

proof fn lemma_in_move_order_at(
    state: GameState,
    root_player: Player,
    weights: EvaluationWeights,
    q: Seq<Action>,
    i: int,
    j: int,
)
    requires
        in_move_order(state, root_player, weights, q),
        0 <= i < j < q.len(),
    ensures
        order_le(state, root_player, weights, q[i], q[j]),
{
    assert(q[i] == q[i] && q[j] == q[j]);
}

proof fn lemma_rest_same_members(q1: Seq<Action>, q2: Seq<Action>)
    requires
        q1.len() > 0,
        q1.no_duplicates(),
        q2.no_duplicates(),
        q1.len() == q2.len(),
        q1[0] == q2[0],
        forall|a: Action| q1.contains(a) <==> q2.contains(a),
    ensures
        forall|a: Action| q1.drop_first().contains(a) <==> q2.drop_first().contains(a),
{
    let x = q1[0];
    let r1 = q1.drop_first();
    let r2 = q2.drop_first();
    assert forall|a: Action| r1.contains(a) <==> r2.contains(a) by {
        if r1.contains(a) {
            let k = choose|k: int| 0 <= k < r1.len() && r1[k] == a;
            assert(q1[k + 1] == a);
            assert(a != x);
            assert(q1.contains(a));
            let m = choose|m: int| 0 <= m < q2.len() && q2[m] == a;
            assert(m != 0);
            assert(r2[m - 1] == a);
        }
        if r2.contains(a) {
            let k = choose|k: int| 0 <= k < r2.len() && r2[k] == a;
            assert(q2[k + 1] == a);
            assert(a != x);
            assert(q2.contains(a));
            let m = choose|m: int| 0 <= m < q1.len() && q1[m] == a;
            assert(m != 0);
            assert(r1[m - 1] == a);
        }
    }
}

proof fn lemma_rest_in_move_order(
    state: GameState,
    root_player: Player,
    weights: EvaluationWeights,
    q: Seq<Action>,
)
    requires
        q.len() > 0,
        in_move_order(state, root_player, weights, q),
    ensures
        in_move_order(state, root_player, weights, q.drop_first()),
{
    let r = q.drop_first();
    assert forall|i: int, j: int| 0 <= i < j < r.len() implies order_le(state, root_player, weights, r[i], r[j]) by {
        lemma_in_move_order_at(state, root_player, weights, q, i + 1, j + 1);
    }
    assert forall|i: int, j: int| 0 <= i < j < r.len() implies {
        let a = move_order_score(state, #[trigger] r[i], root_player, weights);
        let b = move_order_score(state, #[trigger] r[j], root_player, weights);
        &&& state.turn == root_player ==> b <= a
        &&& state.turn != root_player ==> a <= b
        &&& a == b ==> r[i].spec_order() <= r[j].spec_order()
    } by {
        assert(order_le(state, root_player, weights, r[i], r[j]));
    }
}

/// Two duplicate-free orderings of the same legal actions, both in the move
/// order, are the same sequence.
proof fn lemma_move_order_unique(
    state: GameState,
    root_player: Player,
    weights: EvaluationWeights,
    q1: Seq<Action>,
    q2: Seq<Action>,
)
    requires
        q1.no_duplicates(),
        q2.no_duplicates(),
        q1.len() == q2.len(),
        forall|a: Action| q1.contains(a) <==> q2.contains(a),
        forall|i: int| 0 <= i < q1.len() ==> state.spec_legal_actions().contains(#[trigger] q1[i]),
        in_move_order(state, root_player, weights, q1),
        in_move_order(state, root_player, weights, q2),
    ensures
        q1 == q2,
    decreases q1.len(),
{
    if q1.len() > 0 {
        let x = q1[0];
        let y = q2[0];
        assert(q1.contains(x));
        assert(q2.contains(y));
        if x != y {
            let j = choose|j: int| 0 <= j < q2.len() && q2[j] == x;
            let i = choose|i: int| 0 <= i < q1.len() && q1[i] == y;
            assert(i != 0 && j != 0);
            lemma_in_move_order_at(state, root_player, weights, q1, 0, i);
            lemma_in_move_order_at(state, root_player, weights, q2, 0, j);
            assert(state.spec_legal_actions().contains(y));
            lemma_legal_order_injective(state, x, y);
        }
        let r1 = q1.drop_first();
        let r2 = q2.drop_first();
        lemma_rest_same_members(q1, q2);
        lemma_rest_in_move_order(state, root_player, weights, q1);
        lemma_rest_in_move_order(state, root_player, weights, q2);
        lemma_move_order_unique(state, root_player, weights, r1, r2);
        assert(q1 =~= seq![x] + r1);
        assert(q2 =~= seq![y] + r2);
    }
}

/// `actions` run by descending move-order score on the root player's turn
/// and ascending on the opponent's, ties in action order.
pub open spec fn in_move_order(
    state: GameState,
    root_player: Player,
    weights: EvaluationWeights,
    actions: Seq<Action>,
) -> bool {
    forall|i: int, j: int|
        0 <= i < j < actions.len() ==> {
            let a = move_order_score(state, #[trigger] actions[i], root_player, weights);
            let b = move_order_score(state, #[trigger] actions[j], root_player, weights);
            &&& state.turn == root_player ==> b <= a
            &&& state.turn != root_player ==> a <= b
            &&& a == b ==> actions[i].spec_order() <= actions[j].spec_order()
        }
}

/// The score the move orderer gives `action`: decisive wins first, then
/// captures, then the evaluation of the resulting position.
fn order_score(state: GameState, action: Action, root_player: Player, weights: EvaluationWeights) -> (r: i32)
    requires
        playable(state),
        weights.fits(),
        state.spec_legal_actions().contains(action),
    ensures
        wins_at_once(state, action) <==> r == 2_000_000_000,
        r <= 2_000_000_000,
        r == move_order_score(state, action, root_player, weights),
{
    proof {
        law_play_keeps_inventory(state, action);
    }
    let transition = state.apply_legal(action);
    if transition.state.winner == Some(state.turn) {
        2_000_000_000
    } else {
        proof {
            lemma_squares_below(transition.captured, 64);
            assert(transition.state.winner is None) by {
                assert(transition.state.winner == Some(state.turn) || transition.state.winner is None);
            }
        }
        popcount(transition.captured) as i32 * 10_000 + evaluate(transition.state, root_player, weights)
    }
}

/// Pathfinder's deterministic move order: the legal actions by descending
/// score for the root player's turns and ascending score for the
/// opponent's, ties broken by action order.
pub fn ordered_actions(state: GameState, root_player: Player, weights: EvaluationWeights) -> (r: Vec<Action>)
    requires
        playable(state),
        weights.fits(),
    ensures
        r@.len() == state.spec_legal_actions().len(),
        forall|i: int| 0 <= i < r@.len() ==> state.spec_legal_actions().contains(#[trigger] r@[i]),
        forall|a: Action| state.spec_legal_actions().contains(a) ==> r@.contains(a),
        state.turn == root_player ==> forall|i: int, j: int|
            0 <= i < j < r@.len() && wins_at_once(state, #[trigger] r@[j]) ==> wins_at_once(state, #[trigger] r@[i]),
        state.turn != root_player ==> forall|i: int, j: int|
            0 <= i < j < r@.len() && wins_at_once(state, #[trigger] r@[i]) ==> wins_at_once(state, #[trigger] r@[j]),
        in_move_order(state, root_player, weights, r@),
        r@ == move_sequence(state, root_player, weights),
{
    broadcast use vstd::seq_lib::group_to_multiset_ensures;

    let maximizing = state.turn == root_player;
    let legal = state.legal_actions();
    let mut scored: Vec<(Action, i32)> = Vec::new();
    let mut i: usize = 0;
    while i < legal.len()
        invariant
            playable(state),
            weights.fits(),
            legal@ == state.spec_legal_actions(),
            i <= legal@.len(),
            scored@.len() == i,
            forall|k: int| 0 <= k < i ==> (#[trigger] scored@[k]).0 == legal@[k],
            forall|k: int| 0 <= k < i ==> (wins_at_once(state, #[trigger] scored@[k].0) <==> scored@[k].1 == 2_000_000_000),
            forall|k: int| 0 <= k < i ==> (#[trigger] scored@[k]).1 <= 2_000_000_000,
            forall|k: int| 0 <= k < i ==> (#[trigger] scored@[k]).1 == move_order_score(
                state,
                scored@[k].0,
                root_player,
                weights,
            ),
        decreases legal@.len() - i,
    {
        let action = legal[i];
        let score = order_score(state, action, root_player, weights);
        scored.push((action, score));
        i = i + 1;
    }
    let sorted = sort_ranked(&scored, maximizing, true);
    let mut actions: Vec<Action> = Vec::new();
    let mut k: usize = 0;
    while k < sorted.len()
        invariant
            k <= sorted@.len(),
            actions@.len() == k,
            forall|q: int| 0 <= q < k ==> #[trigger] actions@[q] == sorted@[q].0,
        decreases sorted@.len() - k,
    {
        actions.push(sorted[k].0);
        k = k + 1;
    }
    proof {
        assert forall|q: int| 0 <= q < sorted@.len() implies scored@.contains(#[trigger] sorted@[q]) by {
            assert(sorted@.to_multiset().count(sorted@[q]) > 0);
        }
        assert forall|q: int| 0 <= q < actions@.len() implies state.spec_legal_actions().contains(
            #[trigger] actions@[q],
        ) by {
            assert(scored@.contains(sorted@[q]));
            let w = choose|w: int| 0 <= w < scored@.len() && scored@[w] == sorted@[q];
            assert(legal@[w] == actions@[q]);
        }
        assert forall|a: Action| state.spec_legal_actions().contains(a) implies actions@.contains(a) by {
            let w = choose|w: int| 0 <= w < legal@.len() && legal@[w] == a;
            assert(scored@[w].0 == a);
            assert(scored@.to_multiset().count(scored@[w]) > 0);
            assert(sorted@.contains(scored@[w]));
            let q = choose|q: int| 0 <= q < sorted@.len() && sorted@[q] == scored@[w];
            assert(actions@[q] == a);
        }
        assert forall|i: int, j: int| 0 <= i < j < actions@.len() implies (maximizing && wins_at_once(state, #[trigger] actions@[j]) ==> wins_at_once(state, #[trigger] actions@[i])) && (!maximizing && wins_at_once(state, actions@[i]) ==> wins_at_once(state, actions@[j])) by {
            assert(scored@.contains(sorted@[i]));
            assert(scored@.contains(sorted@[j]));
            let wi = choose|w: int| 0 <= w < scored@.len() && scored@[w] == sorted@[i];
            let wj = choose|w: int| 0 <= w < scored@.len() && scored@[w] == sorted@[j];
            assert(!precedes(sorted@[j], sorted@[i], maximizing, true));
        }
        assert forall|i: int, j: int| 0 <= i < j < actions@.len() implies {
            let a = move_order_score(state, #[trigger] actions@[i], root_player, weights);
            let b = move_order_score(state, #[trigger] actions@[j], root_player, weights);
            &&& state.turn == root_player ==> b <= a
            &&& state.turn != root_player ==> a <= b
            &&& a == b ==> actions@[i].spec_order() <= actions@[j].spec_order()
        } by {
            assert(scored@.contains(sorted@[i]));
            assert(scored@.contains(sorted@[j]));
            let wi = choose|w: int| 0 <= w < scored@.len() && scored@[w] == sorted@[i];
            let wj = choose|w: int| 0 <= w < scored@.len() && scored@[w] == sorted@[j];
            assert(sorted@[i].1 == move_order_score(state, actions@[i], root_player, weights));
            assert(sorted@[j].1 == move_order_score(state, actions@[j], root_player, weights));
            assert(!precedes(sorted@[j], sorted@[i], maximizing, true));
        }
    }
    proof {
        assert(in_move_order(state, root_player, weights, actions@));
        lemma_legal_permutation_distinct(state, actions@);
        assert(is_move_sequence(state, root_player, weights, actions@));
        let q = move_sequence(state, root_player, weights);
        assert(is_move_sequence(state, root_player, weights, q));
        assert forall|a: Action| actions@.contains(a) <==> q.contains(a) by {}
        lemma_move_order_unique(state, root_player, weights, actions@, q);
    }
    actions
}

/// Whether `actions` lists `action`.
fn lists_action(actions: &[Action], action: Action) -> (r: bool)
    ensures
        r == actions@.contains(action),
{
    let mut i: usize = 0;
    while i < actions.len()
        invariant
            i <= actions@.len(),
            forall|k: int| 0 <= k < i ==> actions@[k] != action,
        decreases actions@.len() - i,
    {
        if actions[i] == action {
            return true;
        }
        i = i + 1;
    }
    false
}

/// The root actions in the caller's preferred order: first the legal actions
/// of `root_order`, once each and in its order, then the remaining legal
/// actions in Pathfinder's order.
pub fn root_ordered_actions(
    state: GameState,
    root_player: Player,
    weights: EvaluationWeights,
    root_order: &[Action],
) -> (r: Vec<Action>)
    requires
        playable(state),
        weights.fits(),
    ensures
        forall|i: int| 0 <= i < r@.len() ==> state.spec_legal_actions().contains(#[trigger] r@[i]),
        forall|a: Action| state.spec_legal_actions().contains(a) ==> r@.contains(a),
        root_order@.len() > 0 ==> forall|i: int, j: int| 0 <= i < j < r@.len() ==> r@[i] != r@[j],
        root_order@.len() > 0 && state.spec_legal_actions().contains(root_order@[0]) ==> r@.len() > 0
            && r@[0] == root_order@[0],
        distinct_legal_order(state, root_order@) ==> r@.len() >= root_order@.len() && forall|i: int|
            0 <= i < root_order@.len() ==> #[trigger] r@[i] == root_order@[i],
{
    let fallback = ordered_actions(state, root_player, weights);
    if root_order.len() == 0 {
        return fallback;
    }
    let mut merged: Vec<Action> = Vec::new();
    let mut i: usize = 0;
    while i < root_order.len()
        invariant
            i <= root_order@.len(),
            forall|k: int| 0 <= k < merged@.len() ==> fallback@.contains(#[trigger] merged@[k]),
            forall|a: int, b: int| 0 <= a < b < merged@.len() ==> merged@[a] != merged@[b],
            forall|a: Action| state.spec_legal_actions().contains(a) ==> fallback@.contains(a),
            i > 0 && state.spec_legal_actions().contains(root_order@[0]) ==> merged@.len() > 0
                && merged@[0] == root_order@[0],
            i == 0 ==> merged@.len() == 0,
            distinct_legal_order(state, root_order@) ==> merged@ == root_order@.take(i as int),
        decreases root_order@.len() - i,
    {
        let action = root_order[i];
        proof {
            if distinct_legal_order(state, root_order@) {
                assert(state.spec_legal_actions().contains(root_order@[i as int]));
                assert(!merged@.contains(action)) by {
                    if merged@.contains(action) {
                        let w = choose|w: int| 0 <= w < merged@.len() && merged@[w] == action;
                        assert(root_order@[w] == root_order@[i as int]);
                    }
                }
            }
        }
        if lists_action(fallback.as_slice(), action) && !lists_action(merged.as_slice(), action) {
            merged.push(action);
        }
        i = i + 1;
    }
    let mut j: usize = 0;
    while j < fallback.len()
        invariant
            j <= fallback@.len(),
            forall|k: int| 0 <= k < merged@.len() ==> fallback@.contains(#[trigger] merged@[k]),
            forall|a: int, b: int| 0 <= a < b < merged@.len() ==> merged@[a] != merged@[b],
            forall|k: int| 0 <= k < j ==> merged@.contains(#[trigger] fallback@[k]),
            state.spec_legal_actions().contains(root_order@[0]) ==> merged@.len() > 0 && merged@[0]
                == root_order@[0],
            distinct_legal_order(state, root_order@) ==> merged@.len() >= root_order@.len() && forall|k: int|
                0 <= k < root_order@.len() ==> #[trigger] merged@[k] == root_order@[k],
        decreases fallback@.len() - j,
    {
        let action = fallback[j];
        let ghost before = merged@;
        if !lists_action(merged.as_slice(), action) {
            merged.push(action);
        }
        proof {
            assert forall|k: int| 0 <= k < j + 1 implies merged@.contains(#[trigger] fallback@[k]) by {
                if k < j {
                    let w = choose|w: int| 0 <= w < before.len() && before[w] == fallback@[k];
                    assert(merged@[w] == fallback@[k]);
                } else if merged@.len() > before.len() {
                    assert(merged@[before.len() as int] == fallback@[k]);
                }
            }
        }
        j = j + 1;
    }
    merged
}

/// Moves `preferred`, where listed, to the front by swapping it with the
/// first action.
fn put_first(actions: &mut Vec<Action>, preferred: Action)
    ensures
        final(actions)@.len() == old(actions)@.len(),
        forall|k: int| 0 <= k < final(actions)@.len() ==> old(actions)@.contains(#[trigger] final(actions)@[k]),
        forall|a: Action| old(actions)@.contains(a) ==> final(actions)@.contains(a),
        old(actions)@.contains(preferred) ==> final(actions)@[0] == preferred,
        !old(actions)@.contains(preferred) ==> final(actions)@ == old(actions)@,
{
    let mut index: usize = 0;
    while index < actions.len()
        invariant
            index <= actions@.len(),
            actions@ == old(actions)@,
            forall|k: int| 0 <= k < index ==> actions@[k] != preferred,
        decreases actions@.len() - index,
    {
        if actions[index] == preferred {
            let front = actions[0];
            actions.set(0, preferred);
            actions.set(index, front);
            proof {
                let before = old(actions)@;
                assert forall|k: int| 0 <= k < actions@.len() implies before.contains(#[trigger] actions@[k]) by {
                    if k == 0 {
                        assert(before[index as int] == actions@[k]);
                    } else if k == index {
                        assert(before[0] == actions@[k]);
                    } else {
                        assert(before[k] == actions@[k]);
                    }
                }
                assert forall|a: Action| before.contains(a) implies actions@.contains(a) by {
                    let w = choose|w: int| 0 <= w < before.len() && before[w] == a;
                    if w == 0 {
                        assert(actions@[index as int] == a);
                    } else if w == index {
                        assert(actions@[0] == a);
                    } else {
                        assert(actions@[w] == a);
                    }
                }
            }
            return;
        }
        index = index + 1;
    }
}

/// Keeps at most `root_limit` root actions (and at least one).
fn limit_root_actions(actions: &mut Vec<Action>, root_limit: Option<usize>)
    ensures
        final(actions)@ == match root_limit {
            Some(limit) => old(actions)@.take(
                if old(actions)@.len() <= (if limit < 1 { 1 } else { limit }) {
                    old(actions)@.len() as int
                } else {
                    (if limit < 1 { 1 } else { limit }) as int
                },
            ),
            None => old(actions)@,
        },
{
    match root_limit {
        Some(limit) => {
            let keep = if limit < 1 {
                1
            } else {
                limit
            };
            actions.truncate(keep);
            proof {
                assert(actions@ =~= old(actions)@.take(
                    if old(actions)@.len() <= keep {
                        old(actions)@.len() as int
                    } else {
                        keep as int
                    },
                ));
            }
        },
        None => {},
    }
}

/// Reorders `actions` by descending history score, keeping the present order
/// among equal scores.
fn sort_by_history(actions: &Vec<Action>, hints: &SearchHints, ply: usize, maximizing: bool) -> (r: Vec<Action>)
    requires
        ply < 1024,
        history_ok(hints.history@),
    ensures
        r@.len() == actions@.len(),
        forall|k: int| 0 <= k < r@.len() ==> actions@.contains(#[trigger] r@[k]),
        forall|a: Action| actions@.contains(a) ==> #[trigger] r@.contains(a),
{
    broadcast use vstd::seq_lib::group_to_multiset_ensures;

    let mut scored: Vec<(Action, i32)> = Vec::new();
    let mut i: usize = 0;
    while i < actions.len()
        invariant
            ply < 1024,
            history_ok(hints.history@),
            i <= actions@.len(),
            scored@.len() == i,
            forall|k: int| 0 <= k < i ==> (#[trigger] scored@[k]).0 == actions@[k],
        decreases actions@.len() - i,
    {
        let action = actions[i];
        scored.push((action, hints.history_at(ply, action, maximizing)));
        i = i + 1;
    }
    let sorted = sort_ranked(&scored, true, false);
    let mut result: Vec<Action> = Vec::new();
    let mut k: usize = 0;
    while k < sorted.len()
        invariant
            k <= sorted@.len(),
            result@.len() == k,
            forall|q: int| 0 <= q < k ==> #[trigger] result@[q] == sorted@[q].0,
        decreases sorted@.len() - k,
    {
        result.push(sorted[k].0);
        k = k + 1;
    }
    proof {
        assert forall|q: int| 0 <= q < result@.len() implies actions@.contains(#[trigger] result@[q]) by {
            assert(sorted@.to_multiset().count(sorted@[q]) > 0);
            assert(scored@.contains(sorted@[q]));
            let w = choose|w: int| 0 <= w < scored@.len() && scored@[w] == sorted@[q];
            assert(actions@[w] == result@[q]);
        }
        assert forall|a: Action| actions@.contains(a) implies #[trigger] result@.contains(a) by {
            let w = choose|w: int| 0 <= w < actions@.len() && actions@[w] == a;
            assert(scored@[w].0 == a);
            assert(scored@.to_multiset().count(scored@[w]) > 0);
            assert(sorted@.contains(scored@[w]));
            let q = choose|q: int| 0 <= q < sorted@.len() && sorted@[q] == scored@[w];
            assert(result@[q] == a);
        }
    }
    result
}

// ---------------------------------------------------------------------------
// Alpha-beta
// ---------------------------------------------------------------------------

/// The moves a search node tries, in the order it tries them: the beam of
/// the move order, or, with table ordering, the move order reordered by the
/// table's move, the killers and the history scores before the beam is
/// taken. Where the beam keeps every legal move, the reordering has the
/// beam's members and so its best child value.
#[verifier::spinoff_prover]
#[verifier::rlimit(60)]
fn node_moves(
    state: GameState,
    root_player: Player,
    config: SearchConfig,
    tt_move_order: bool,
    preferred_action: Option<Action>,
    hints: &SearchHints,
    ply_from_root: usize,
    Ghost(depth): Ghost<nat>,
    Ghost(extension): Ghost<bool>,
) -> (r: Vec<Action>)
    requires
        playable(state),
        config.fits(),
        ply_from_root < 1024,
        history_ok(hints.history@),
    ensures
        forall|k: int| 0 <= k < r@.len() ==> state.spec_legal_actions().contains(#[trigger] r@[k]),
        !tt_move_order ==> r@ == beam_moves(state, root_player, config),
        tt_move_order && state.spec_legal_actions().len() <= config.beam_width ==> {
            &&& r@.len() == beam_moves(state, root_player, config).len()
            &&& r@.len() > 0 ==> beam_extreme(state, root_player, depth, config, extension, r@, r@.len()) == beam_extreme(
                state,
                root_player,
                depth,
                config,
                extension,
                beam_moves(state, root_player, config),
                beam_moves(state, root_player, config).len(),
            )
        },
{
    let ghost legal = state.spec_legal_actions();
    let maximizing = state.turn == root_player;
    let mut actions = ordered_actions(state, root_player, config.weights);
    let ghost sequence = actions@;
    if tt_move_order {
        match preferred_action {
            Some(preferred) => put_first(&mut actions, preferred),
            None => {},
        }
        let killers = hints.killers_at(ply_from_root);
        match killers.1 {
            Some(killer) => put_first(&mut actions, killer),
            None => {},
        }
        match killers.0 {
            Some(killer) => put_first(&mut actions, killer),
            None => {},
        }
        actions = sort_by_history(&actions, hints, ply_from_root, maximizing);
    }
    assert(forall|k: int| 0 <= k < actions@.len() ==> legal.contains(#[trigger] actions@[k]));
    assert(actions@.len() == legal.len());
    assert(forall|a: Action| legal.contains(a) ==> #[trigger] actions@.contains(a));
    let ghost ordered = actions@;
    actions.truncate(config.beam_width);
    assert(forall|k: int| 0 <= k < actions@.len() ==> legal.contains(#[trigger] actions@[k]));
    proof {
        if !tt_move_order {
            assert(ordered == move_sequence(state, root_player, config.weights));
            if config.beam_width >= ordered.len() {
                assert(actions@ =~= ordered);
            }
        } else if legal.len() <= config.beam_width {
            assert(actions@ =~= ordered);
            lemma_reordered_beam(state, root_player, depth, config, extension, sequence, ordered);
        }
    }
    actions
}

/// The positions a search of `depth` more plies can start from.
pub open spec fn searchable(state: GameState, depth: int) -> bool {
    &&& state.inventory_kept()
    &&& state.ply + depth + 1 <= u16::MAX
}

proof fn lemma_evaluation_inside_bounds(state: GameState, player: Player, r: i32)
    requires
        state.winner == Some(player) || state.winner == Some(player.opponent()) ==> r
            == terminal_score(state, player),
        state.winner is None ==> -HEURISTIC_LIMIT <= r <= HEURISTIC_LIMIT,
    ensures
        NEG_INF < r < POS_INF,
{
    match state.winner {
        Some(p) => {
            assert(p == player || p == player.opponent());
        },
        None => {},
    }
}

fn evaluate_bounded(state: GameState, player: Player, weights: EvaluationWeights) -> (r: i32)
    requires
        board_ok(state),
        weights.fits(),
    ensures
        NEG_INF < r < POS_INF,
        state.winner == Some(player) || state.winner == Some(player.opponent()) ==> r
            == terminal_score(state, player),
        state.winner is None ==> -HEURISTIC_LIMIT <= r <= HEURISTIC_LIMIT,
        is_evaluation(state, player, weights, r as int),
{
    let r = evaluate(state, player, weights);
    proof {
        lemma_evaluation_inside_bounds(state, player, r);
    }
    r
}

/// The first legal action that wins at once, if any.
fn first_winning_action(state: GameState) -> (r: Option<Action>)
    requires
        playable(state),
    ensures
        r matches Some(a) ==> state.spec_legal_actions().contains(a) && wins_at_once(state, a),
        r matches Some(a) ==> exists|i: int|
            0 <= i < state.spec_legal_actions().len() && state.spec_legal_actions()[i] == a && forall|j: int|
                0 <= j < i ==> !wins_at_once(state, #[trigger] state.spec_legal_actions()[j]),
        r is None ==> forall|a: Action| #[trigger] state.spec_legal_actions().contains(a) ==> !wins_at_once(state, a),
{
    let legal = state.legal_actions();
    let mut i: usize = 0;
    while i < legal.len()
        invariant
            playable(state),
            legal@ == state.spec_legal_actions(),
            i <= legal@.len(),
            forall|j: int| 0 <= j < i ==> !wins_at_once(state, #[trigger] legal@[j]),
        decreases legal@.len() - i,
    {
        let action = legal[i];
        if state.apply_legal(action).state.winner == Some(state.turn) {
            return Some(action);
        }
        i = i + 1;
    }
    proof {
        assert forall|a: Action| #[trigger] state.spec_legal_actions().contains(a) implies !wins_at_once(state, a) by {
            let j = choose|j: int| 0 <= j < legal@.len() && legal@[j] == a;
        }
    }
    None
}


/// The score a move that wins at once gives `root_player`.
pub open spec fn win_now_value(state: GameState, root_player: Player) -> int {
    terminal_score(
        state.spec_apply(
            choose|a: Action| #[trigger] state.spec_legal_actions().contains(a) && wins_at_once(state, a),
        ).state,
        root_player,
    )
}

/// The moves a search node looks at: the first `beam_width` of the move
/// order.
pub open spec fn beam_moves(state: GameState, root_player: Player, config: SearchConfig) -> Seq<Action> {
    let q = move_sequence(state, root_player, config.weights);
    if config.beam_width < q.len() {
        q.subrange(0, config.beam_width as int)
    } else {
        q
    }
}

/// The depth-limited beam minimax value of `state` for `root_player`: a
/// decided game scores its terminal score; at depth zero or without moves
/// to look at, the evaluation (or, with the tactical extension, the score of
/// a win at once); otherwise the best value over the beam's moves one ply
/// less deep, the maximum on the root player's turns and the minimum on the
/// opponent's.
pub open spec fn beam_value(
    state: GameState,
    root_player: Player,
    depth: nat,
    config: SearchConfig,
    extension: bool,
) -> int
    decreases depth, 0int,
{
    if state.winner is Some {
        terminal_score(state, root_player)
    } else if depth == 0 {
        if extension && has_win_at_once(state) {
            win_now_value(state, root_player)
        } else {
            position_value(state, root_player, config.weights)
        }
    } else {
        let moves = beam_moves(state, root_player, config);
        if moves.len() == 0 {
            position_value(state, root_player, config.weights)
        } else {
            beam_extreme(state, root_player, (depth - 1) as nat, config, extension, moves, moves.len())
        }
    }
}

/// The best value, for the side to move in `state`, of the children reached
/// by the first `n` of `moves`, each searched `depth` plies deep.
pub open spec fn beam_extreme(
    state: GameState,
    root_player: Player,
    depth: nat,
    config: SearchConfig,
    extension: bool,
    moves: Seq<Action>,
    n: nat,
) -> int
    decreases depth, n,
{
    if n == 0 {
        0
    } else if n == 1 {
        beam_value(state.spec_apply(moves[0]).state, root_player, depth, config, extension)
    } else {
        let rest = beam_extreme(state, root_player, depth, config, extension, moves, (n - 1) as nat);
        let v = beam_value(state.spec_apply(moves[n - 1]).state, root_player, depth, config, extension);
        if state.turn == root_player {
            if v > rest {
                v
            } else {
                rest
            }
        } else {
            if v < rest {
                v
            } else {
                rest
            }
        }
    }
}

/// How a fail-soft alpha-beta result `r` for the window `alpha..beta`
/// relates to the true value: exact inside the window, an upper bound at or
/// below `alpha`, a lower bound at or above `beta`.
pub open spec fn fail_soft(r: int, alpha: int, beta: int, value: int) -> bool {
    &&& alpha < r < beta ==> r == value
    &&& r <= alpha ==> value <= r
    &&& r >= beta ==> value >= r
}

/// One step of a maximizing node's loop: the running best stays the best
/// child value seen when it beats the window's floor, and an upper bound of
/// them otherwise; a cutoff gives a lower bound.
proof fn lemma_max_step(
    a0: int,
    b0: int,
    best_prev: int,
    searched_prev: bool,
    m_prev: int,
    r: int,
    v: int,
    best_new: int,
)
    requires
        a0 < b0,
        NEG_INF <= a0,
        !searched_prev ==> best_prev == NEG_INF,
        searched_prev ==> m_prev <= best_prev && (best_prev > a0 ==> best_prev == m_prev),
        NEG_INF < r,
        fail_soft(r, if best_prev > a0 { best_prev } else { a0 }, b0, v),
        (if best_prev > a0 { best_prev } else { a0 }) < b0,
        best_new == (if r > best_prev { r } else { best_prev }),
    ensures
        ({
            let m_new = if searched_prev {
                if v > m_prev {
                    v
                } else {
                    m_prev
                }
            } else {
                v
            };
            let a_new = if best_new > a0 {
                best_new
            } else {
                a0
            };
            &&& a_new < b0 ==> m_new <= best_new && (best_new > a0 ==> best_new == m_new)
            &&& a_new >= b0 ==> best_new >= b0 && v >= best_new
        }),
{
}

/// One step of a minimizing node's loop, the mirror of `lemma_max_step`.
proof fn lemma_min_step(
    a0: int,
    b0: int,
    best_prev: int,
    searched_prev: bool,
    m_prev: int,
    r: int,
    v: int,
    best_new: int,
)
    requires
        a0 < b0,
        b0 <= POS_INF,
        !searched_prev ==> best_prev == POS_INF,
        searched_prev ==> m_prev >= best_prev && (best_prev < b0 ==> best_prev == m_prev),
        r < POS_INF,
        fail_soft(r, a0, if best_prev < b0 { best_prev } else { b0 }, v),
        a0 < (if best_prev < b0 { best_prev } else { b0 }),
        best_new == (if r < best_prev { r } else { best_prev }),
    ensures
        ({
            let m_new = if searched_prev {
                if v < m_prev {
                    v
                } else {
                    m_prev
                }
            } else {
                v
            };
            let b_new = if best_new < b0 {
                best_new
            } else {
                b0
            };
            &&& a0 < b_new ==> m_new >= best_new && (best_new < b0 ==> best_new == m_new)
            &&& a0 >= b_new ==> best_new <= a0 && v <= best_new
        }),
{
}

/// A fail-soft result for a window narrowed by sound table bounds is a
/// fail-soft result for the window asked for.
proof fn lemma_window(r: int, alpha: int, beta: int, a0: int, b0: int, value: int)
    requires
        alpha <= a0,
        b0 <= beta,
        a0 < b0,
        a0 > alpha ==> value >= a0,
        b0 < beta ==> value <= b0,
        fail_soft(r, a0, b0, value),
    ensures
        fail_soft(r, alpha, beta, value),
{
}

/// Every position that a search of `depth` plies from `state` expands has
/// at most `beam_width` legal moves, so no beam drops a move.
pub open spec fn beam_covers(state: GameState, depth: nat, config: SearchConfig) -> bool
    decreases depth,
{
    if depth == 0 || state.winner is Some {
        true
    } else {
        &&& state.spec_legal_actions().len() <= config.beam_width
        &&& forall|a: Action| #[trigger] state.spec_legal_actions().contains(a) ==> beam_covers(
            state.spec_apply(a).state,
            (depth - 1) as nat,
            config,
        )
    }
}

/// A beam that covers a deep search covers every shallower one.
proof fn lemma_beam_covers_shallower(state: GameState, depth: nat, shallower: nat, config: SearchConfig)
    requires
        beam_covers(state, depth, config),
        shallower <= depth,
    ensures
        beam_covers(state, shallower, config),
    decreases shallower,
{
    if shallower > 0 && state.winner is None {
        assert forall|a: Action| #[trigger] state.spec_legal_actions().contains(a) implies beam_covers(
            state.spec_apply(a).state,
            (shallower - 1) as nat,
            config,
        ) by {
            lemma_beam_covers_shallower(state.spec_apply(a).state, (depth - 1) as nat, (shallower - 1) as nat, config);
        }
    }
}

/// The best of the first `n` children is the value of one of them.
#[verifier::spinoff_prover]
proof fn lemma_extreme_attained(
    state: GameState,
    root_player: Player,
    depth: nat,
    config: SearchConfig,
    extension: bool,
    moves: Seq<Action>,
    n: nat,
)
    requires
        0 < n,
    ensures
        exists|k: int|
            0 <= k < n && beam_extreme(state, root_player, depth, config, extension, moves, n) == beam_value(
                state.spec_apply(#[trigger] moves[k]).state,
                root_player,
                depth,
                config,
                extension,
            ),
    decreases n,
{
    if n == 1 {
        assert(beam_extreme(state, root_player, depth, config, extension, moves, n) == beam_value(
            state.spec_apply(moves[0]).state,
            root_player,
            depth,
            config,
            extension,
        ));
    } else {
        lemma_extreme_attained(state, root_player, depth, config, extension, moves, (n - 1) as nat);
        let v = beam_value(state.spec_apply(moves[n - 1]).state, root_player, depth, config, extension);
        if beam_extreme(state, root_player, depth, config, extension, moves, n) == v {
            assert(0 <= n - 1 < n && beam_extreme(state, root_player, depth, config, extension, moves, n) == beam_value(
                state.spec_apply(moves[n - 1]).state,
                root_player,
                depth,
                config,
                extension,
            ));
        } else {
            let k = choose|k: int|
                0 <= k < n - 1 && beam_extreme(state, root_player, depth, config, extension, moves, (n - 1) as nat)
                    == beam_value(state.spec_apply(#[trigger] moves[k]).state, root_player, depth, config, extension);
            assert(0 <= k < n && beam_extreme(state, root_player, depth, config, extension, moves, n) == beam_value(
                state.spec_apply(moves[k]).state,
                root_player,
                depth,
                config,
                extension,
            ));
        }
    }
}

/// Two move lists with the same members have the same best child value,
/// whatever their order.
#[verifier::spinoff_prover]
#[verifier::rlimit(50)]
proof fn lemma_extreme_same_moves(
    state: GameState,
    root_player: Player,
    depth: nat,
    config: SearchConfig,
    extension: bool,
    p: Seq<Action>,
    q: Seq<Action>,
)
    requires
        p.len() > 0,
        q.len() > 0,
        forall|a: Action| p.contains(a) <==> q.contains(a),
    ensures
        beam_extreme(state, root_player, depth, config, extension, p, p.len()) == beam_extreme(
            state,
            root_player,
            depth,
            config,
            extension,
            q,
            q.len(),
        ),
{
    lemma_extreme_attained(state, root_player, depth, config, extension, p, p.len());
    lemma_extreme_attained(state, root_player, depth, config, extension, q, q.len());
    let kp = choose|k: int|
        0 <= k < p.len() && beam_extreme(state, root_player, depth, config, extension, p, p.len()) == beam_value(
            state.spec_apply(#[trigger] p[k]).state,
            root_player,
            depth,
            config,
            extension,
        );
    let kq = choose|k: int|
        0 <= k < q.len() && beam_extreme(state, root_player, depth, config, extension, q, q.len()) == beam_value(
            state.spec_apply(#[trigger] q[k]).state,
            root_player,
            depth,
            config,
            extension,
        );
    assert(q.contains(p[kp]));
    assert(p.contains(q[kq]));
    let jq = choose|j: int| 0 <= j < q.len() && q[j] == p[kp];
    let jp = choose|j: int| 0 <= j < p.len() && p[j] == q[kq];
    lemma_extreme_bounds(state, root_player, depth, config, extension, q, q.len(), jq);
    lemma_extreme_bounds(state, root_player, depth, config, extension, p, p.len(), jp);
}

/// A reordering of the whole move order, where the beam keeps every move,
/// has the beam's members and so its best child value.
#[verifier::spinoff_prover]
proof fn lemma_reordered_beam(
    state: GameState,
    root_player: Player,
    depth: nat,
    config: SearchConfig,
    extension: bool,
    sequence: Seq<Action>,
    reordered: Seq<Action>,
)
    requires
        sequence == move_sequence(state, root_player, config.weights),
        sequence.len() == state.spec_legal_actions().len(),
        forall|k: int| 0 <= k < sequence.len() ==> state.spec_legal_actions().contains(#[trigger] sequence[k]),
        forall|a: Action| state.spec_legal_actions().contains(a) ==> #[trigger] sequence.contains(a),
        reordered.len() == state.spec_legal_actions().len(),
        forall|k: int| 0 <= k < reordered.len() ==> state.spec_legal_actions().contains(#[trigger] reordered[k]),
        forall|a: Action| state.spec_legal_actions().contains(a) ==> #[trigger] reordered.contains(a),
        state.spec_legal_actions().len() <= config.beam_width,
    ensures
        beam_moves(state, root_player, config) == sequence,
        reordered.len() == sequence.len(),
        reordered.len() > 0 ==> beam_extreme(state, root_player, depth, config, extension, reordered, reordered.len())
            == beam_extreme(state, root_player, depth, config, extension, sequence, sequence.len()),
{
    let legal = state.spec_legal_actions();
    assert forall|a: Action| #[trigger] reordered.contains(a) <==> sequence.contains(a) by {
        if reordered.contains(a) {
            let k = choose|k: int| 0 <= k < reordered.len() && reordered[k] == a;
            assert(legal.contains(reordered[k]));
        }
        if sequence.contains(a) {
            let k = choose|k: int| 0 <= k < sequence.len() && sequence[k] == a;
            assert(legal.contains(sequence[k]));
        }
    }
    if reordered.len() > 0 {
        lemma_extreme_same_moves(state, root_player, depth, config, extension, reordered, sequence);
    }
}

/// The best of the first `n` children bounds each of them.
proof fn lemma_extreme_bounds(
    state: GameState,
    root_player: Player,
    depth: nat,
    config: SearchConfig,
    extension: bool,
    moves: Seq<Action>,
    n: nat,
    k: int,
)
    requires
        0 <= k < n,
    ensures
        state.turn == root_player ==> beam_value(state.spec_apply(moves[k]).state, root_player, depth, config, extension)
            <= beam_extreme(state, root_player, depth, config, extension, moves, n),
        state.turn != root_player ==> beam_value(state.spec_apply(moves[k]).state, root_player, depth, config, extension)
            >= beam_extreme(state, root_player, depth, config, extension, moves, n),
    decreases n,
{
    if n > 1 && k < n - 1 {
        lemma_extreme_bounds(state, root_player, depth, config, extension, moves, (n - 1) as nat, k);
    }
}

/// Two moves that win at once score the same for the root player.
proof fn lemma_win_now_value(state: GameState, root_player: Player, a: Action)
    requires
        state.inventory_kept(),
        state.ply < u16::MAX,
        state.spec_legal_actions().contains(a),
        wins_at_once(state, a),
    ensures
        win_now_value(state, root_player) == terminal_score(state.spec_apply(a).state, root_player),
        has_win_at_once(state),
{
    let b = choose|b: Action| #[trigger] state.spec_legal_actions().contains(b) && wins_at_once(state, b);
    crate::rules::lemma_legal_action_shape(state, a);
    law_play_keeps_inventory(state, a);
    law_play_keeps_inventory(state, b);
}

/// The table's entries agree with the beam minimax values they were stored
/// for, at depths that fit under `horizon`.
spec fn slot_sound(slot: TableSlot, root: Player, config: SearchConfig, extension: bool, horizon: int) -> bool {
    slot.root == root ==> {
        let value = beam_value(slot.state, root, slot.entry.depth as nat, config, extension);
        &&& slot.entry.depth + slot.state.ply <= horizon
        &&& match slot.entry.bound {
            Bound::Exact => slot.entry.score == value,
            Bound::Lower => slot.entry.score <= value,
            Bound::Upper => slot.entry.score >= value,
        }
    }
}

#[verifier::opaque]
spec fn table_sound(
    table: Map<u128, Vec<TableSlot>>,
    root: Player,
    config: SearchConfig,
    extension: bool,
    horizon: int,
) -> bool {
    forall|key: u128, i: int|
        #![trigger table[key]@[i]]
        table.contains_key(key) && 0 <= i < table[key]@.len() ==> slot_sound(
            table[key]@[i],
            root,
            config,
            extension,
            horizon,
        )
}

/// An entry the table returns for `state` agrees with the beam minimax
/// value at its depth, which fits under `horizon`.
proof fn lemma_table_get_sound(
    table: Map<u128, Vec<TableSlot>>,
    state: GameState,
    root: Player,
    config: SearchConfig,
    extension: bool,
    horizon: int,
    entry: TableEntry,
)
    requires
        table_sound(table, root, config, extension, horizon),
        exists|j: int|
            first_slot(bucket_of(table, spec_table_key(state)), state, root, j) && bucket_of(
                table,
                spec_table_key(state),
            )[j].entry == entry,
    ensures
        entry.depth + state.ply <= horizon,
        match entry.bound {
            Bound::Exact => entry.score == beam_value(state, root, entry.depth as nat, config, extension),
            Bound::Lower => entry.score <= beam_value(state, root, entry.depth as nat, config, extension),
            Bound::Upper => entry.score >= beam_value(state, root, entry.depth as nat, config, extension),
        },
{
    reveal(table_sound);
    let key = spec_table_key(state);
    let bucket = bucket_of(table, key);
    let j = choose|j: int| first_slot(bucket, state, root, j) && bucket[j].entry == entry;
    assert(table.contains_key(key));
    assert(slot_sound(table[key]@[j], root, config, extension, horizon));
    lemma_same_position_equal(bucket[j].state, state);
}

/// A sound table stays sound under a later horizon; an empty one is sound.
proof fn lemma_table_sound_horizon(
    table: Map<u128, Vec<TableSlot>>,
    root: Player,
    config: SearchConfig,
    extension: bool,
    horizon: int,
    later: int,
)
    requires
        table_sound(table, root, config, extension, horizon) || table.dom() =~= Set::empty(),
        horizon <= later,
    ensures
        table_sound(table, root, config, extension, later),
{
    reveal(table_sound);
}

proof fn lemma_same_position_equal(a: GameState, b: GameState)
    requires
        same_position(a, b),
    ensures
        a == b,
{
    broadcast use vstd::array::group_array_axioms;

    assert(a.reserve =~= b.reserve);
    assert(a.last_relocated_to =~= b.last_relocated_to);
}

/// A table that holds more than it did before stays sound when a sound
/// slot is stored.
proof fn lemma_table_put_sound(
    before: Map<u128, Vec<TableSlot>>,
    after: Map<u128, Vec<TableSlot>>,
    state: GameState,
    root: Player,
    entry: TableEntry,
    config: SearchConfig,
    extension: bool,
    horizon: int,
)
    requires
        table_sound(before, root, config, extension, horizon),
        slot_sound(TableSlot { state, root, entry }, root, config, extension, horizon),
        after.contains_key(spec_table_key(state)),
        after[spec_table_key(state)]@ == put_bucket(bucket_of(before, spec_table_key(state)), state, root, entry),
        forall|k: u128| k != spec_table_key(state) ==> (#[trigger] after.contains_key(k) == before.contains_key(k)),
        forall|k: u128| k != spec_table_key(state) && #[trigger] before.contains_key(k) ==> after[k] == before[k],
    ensures
        table_sound(after, root, config, extension, horizon),
{
    reveal(table_sound);
    let key = spec_table_key(state);
    let bucket = bucket_of(before, key);
    assert forall|k: u128, i: int|
        after.contains_key(k) && 0 <= i < after[k]@.len() implies slot_sound(
        #[trigger] after[k]@[i],
        root,
        config,
        extension,
        horizon,
    ) by {
        if k != key {
            assert(before[k]@[i] == after[k]@[i]);
        } else {
            if exists|j: int| first_slot(bucket, state, root, j) {
                let j = choose|j: int| first_slot(bucket, state, root, j);
                if i != j {
                    assert(after[k]@[i] == bucket[i]);
                    assert(before[k]@[i] == bucket[i]);
                }
            } else {
                if i < bucket.len() {
                    assert(after[k]@[i] == bucket[i]);
                    assert(before[k]@[i] == bucket[i]);
                }
            }
        }
    }
}

#[verifier::rlimit(100)]
#[verifier::spinoff_prover]
fn minimax(
    state: GameState,
    root_player: Player,
    depth: u8,
    alpha: i32,
    beta: i32,
    config: SearchConfig,
    tactical_extension: bool,
    tt_move_order: bool,
    ply_from_root: usize,
    budget: &mut Budget,
    table: &mut HashMap<u128, Vec<TableSlot>>,
    hints: &mut SearchHints,
    Ghost(horizon): Ghost<int>,
    Ghost(exact): Ghost<bool>,
) -> (r: i32)
    requires
        alpha < beta,
        exact ==> !tt_move_order || beam_covers(state, depth as nat, config),
        exact ==> table_sound(old(table)@, root_player, config, tactical_extension, horizon),
        exact ==> state.ply + depth == horizon,
        state.inventory_kept(),
        state.ply + depth + (if tactical_extension {
            1int
        } else {
            0int
        }) <= u16::MAX,
        config.fits(),
        NEG_INF <= alpha <= POS_INF,
        NEG_INF <= beta <= POS_INF,
        ply_from_root + depth < 1024,
        old(budget).nodes <= config.max_nodes + 1,
        old(budget).table_hits <= 2 * old(budget).nodes + 1,
        table_ok(old(table)@),
        history_ok(old(hints).history@),
    ensures
        NEG_INF <= r <= POS_INF,
        !final(budget).exhausted ==> NEG_INF < r < POS_INF,
        old(budget).exhausted ==> final(budget).exhausted,
        old(budget).nodes <= final(budget).nodes,
        final(budget).nodes <= old(budget).nodes || final(budget).nodes <= config.max_nodes,
        final(budget).table_hits <= old(budget).table_hits + 1 + 2 * (final(budget).nodes
            - old(budget).nodes),
        final(budget).deadline == old(budget).deadline,
        spent_honestly(*old(budget), config.max_nodes) ==> spent_honestly(*final(budget), config.max_nodes),
        table_ok(final(table)@),
        history_ok(final(hints).history@),
        exact ==> table_sound(final(table)@, root_player, config, tactical_extension, horizon),
        exact && !final(budget).exhausted ==> fail_soft(
            r as int,
            alpha as int,
            beta as int,
            beam_value(state, root_player, depth as nat, config, tactical_extension),
        ),
        state.winner is Some ==> r == terminal_score(state, root_player),
        state.winner is None && depth == 0 && !tactical_extension ==> is_evaluation(
            state,
            root_player,
            config.weights,
            r as int,
        ),
        state.winner is None && depth == 0 && tactical_extension ==> is_evaluation(
            state,
            root_player,
            config.weights,
            r as int,
        ) || exists|a: Action|
            #[trigger] state.spec_legal_actions().contains(a) && wins_at_once(state, a) && r == terminal_score(
                state.spec_apply(a).state,
                root_player,
            ),
        state.winner is None && depth > 0 && old(budget).nodes >= config.max_nodes ==> is_evaluation(
            state,
            root_player,
            config.weights,
            r as int,
        ),
    decreases depth,
{
    if state.winner.is_some() {
        proof {
            let p = state.winner.unwrap();
            assert(p == root_player || p == root_player.opponent());
        }
        return evaluate_bounded(state, root_player, config.weights);
    }
    if depth == 0 {
        if tactical_extension {
            match first_winning_action(state) {
                Some(action) => {
                    if !budget.reached(config.max_nodes) {
                        budget.count_node();
                        proof {
                            law_play_keeps_inventory(state, action);
                        }
                        let score = evaluate_bounded(
                            state.apply_legal(action).state,
                            root_player,
                            config.weights,
                        );
                        proof {
                            lemma_win_now_value(state, root_player, action);
                            let p = state.turn;
                            assert(p == root_player || p == root_player.opponent()) by {
                                lemma_one_of_two(p, root_player);
                            }
                        }
                        budget.reached(config.max_nodes);
                        return score;
                    }
                },
                None => {},
            }
        }
        return evaluate_bounded(state, root_player, config.weights);
    }
    if budget.reached(config.max_nodes) {
        return evaluate_bounded(state, root_player, config.weights);
    }
    let mut alpha = alpha;
    let mut beta = beta;
    let original_alpha = alpha;
    let original_beta = beta;
    let ghost value = beam_value(state, root_player, depth as nat, config, tactical_extension);
    let mut preferred_action: Option<Action> = None;
    match table_get(table, state, root_player) {
        Some(entry) => {
            proof {
                if exact {
                    lemma_table_get_sound(table@, state, root_player, config, tactical_extension, horizon, entry);
                }
            }
            preferred_action = entry.best_action;
            if entry.depth >= depth {
                budget.table_hits = budget.table_hits + 1;
                match entry.bound {
                    Bound::Exact => {
                        return entry.score;
                    },
                    Bound::Lower => {
                        if entry.score > alpha {
                            alpha = entry.score;
                        }
                    },
                    Bound::Upper => {
                        if entry.score < beta {
                            beta = entry.score;
                        }
                    },
                }
                if alpha >= beta {
                    return entry.score;
                }
            }
        },
        None => {},
    }
    let ghost window_alpha = alpha;
    let ghost window_beta = beta;
    assert(original_alpha <= window_alpha && window_beta <= original_beta && window_alpha < window_beta);
    assert(exact ==> (window_alpha > original_alpha ==> value >= window_alpha));
    assert(exact ==> (window_beta < original_beta ==> value <= window_beta));
    let ghost legal = state.spec_legal_actions();
    let maximizing = state.turn == root_player;
    let maximizing = state.turn == root_player;
    let actions = node_moves(
        state,
        root_player,
        config,
        tt_move_order,
        preferred_action,
        hints,
        ply_from_root,
        Ghost((depth - 1) as nat),
        Ghost(tactical_extension),
    );
    proof {
        if exact && tt_move_order {
            assert(legal.len() <= config.beam_width);
        }
    }
    if actions.len() == 0 {
        return evaluate_bounded(state, root_player, config.weights);
    }
    let ghost moves = actions@;
    proof {
        if exact {
            assert(value == beam_extreme(state, root_player, (depth - 1) as nat, config, tactical_extension, moves, moves.len()));
        }
    }
    let mut best: i32 = if maximizing {
        NEG_INF
    } else {
        POS_INF
    };
    let mut best_action = actions[0];
    let mut searched = false;
    let mut i: usize = 0;
    while i < actions.len()
        invariant_except_break
            alpha < beta,
            searched == (i > 0),
            exact && !budget.exhausted && searched ==> (maximizing ==> beam_extreme(
                state,
                root_player,
                (depth - 1) as nat,
                config,
                tactical_extension,
                moves,
                i as nat,
            ) <= best && (best > window_alpha ==> best == beam_extreme(
                state,
                root_player,
                (depth - 1) as nat,
                config,
                tactical_extension,
                moves,
                i as nat,
            ))),
            exact && !budget.exhausted && searched ==> (!maximizing ==> beam_extreme(
                state,
                root_player,
                (depth - 1) as nat,
                config,
                tactical_extension,
                moves,
                i as nat,
            ) >= best && (best < window_beta ==> best == beam_extreme(
                state,
                root_player,
                (depth - 1) as nat,
                config,
                tactical_extension,
                moves,
                i as nat,
            ))),
        invariant
            moves == actions@,
            exact ==> !tt_move_order || beam_covers(state, depth as nat, config),
            window_alpha < window_beta,
            NEG_INF <= window_alpha,
            window_beta <= POS_INF,
            maximizing ==> beta == window_beta && alpha == (if best > window_alpha {
                best
            } else {
                window_alpha
            }),
            !maximizing ==> alpha == window_alpha && beta == (if best < window_beta {
                best
            } else {
                window_beta
            }),
            exact ==> table_sound(table@, root_player, config, tactical_extension, horizon),
            exact ==> state.ply + depth == horizon,
            state.inventory_kept(),
            state.ply + depth + (if tactical_extension {
                1int
            } else {
                0int
            }) <= u16::MAX,
            depth > 0,
            state.winner is None,
            legal == state.spec_legal_actions(),
            forall|k: int| 0 <= k < actions@.len() ==> legal.contains(#[trigger] actions@[k]),
            actions@.len() > 0,
            config.fits(),
            ply_from_root + depth < 1024,
            i <= actions@.len(),
            i > 0 ==> searched,
            !searched ==> best == (if maximizing {
                NEG_INF
            } else {
                POS_INF
            }),
            maximizing == (state.turn == root_player),
            NEG_INF <= alpha <= POS_INF,
            NEG_INF <= beta <= POS_INF,
            NEG_INF <= best <= POS_INF,
            !budget.exhausted ==> (searched ==> NEG_INF < best < POS_INF),
            old(budget).exhausted ==> budget.exhausted,
            old(budget).nodes <= budget.nodes,
            budget.nodes <= old(budget).nodes || budget.nodes <= config.max_nodes,
            budget.nodes <= config.max_nodes + 1,
            budget.table_hits <= old(budget).table_hits + 1 + 2 * (budget.nodes - old(budget).nodes),
            old(budget).table_hits <= 2 * old(budget).nodes + 1,
            budget.deadline == old(budget).deadline,
            spent_honestly(*old(budget), config.max_nodes) ==> spent_honestly(*budget, config.max_nodes),
            table_ok(table@),
            history_ok(hints.history@),
        ensures
            budget.exhausted || searched,
            exact ==> table_sound(table@, root_player, config, tactical_extension, horizon),
            exact && !budget.exhausted ==> fail_soft(
                best as int,
                window_alpha as int,
                window_beta as int,
                beam_extreme(state, root_player, (depth - 1) as nat, config, tactical_extension, moves, moves.len()),
            ),
            NEG_INF <= best <= POS_INF,
            !budget.exhausted ==> (searched ==> NEG_INF < best < POS_INF),
            old(budget).exhausted ==> budget.exhausted,
            old(budget).nodes <= budget.nodes,
            budget.nodes <= old(budget).nodes || budget.nodes <= config.max_nodes,
            budget.table_hits <= old(budget).table_hits + 1 + 2 * (budget.nodes - old(budget).nodes),
            budget.deadline == old(budget).deadline,
            spent_honestly(*old(budget), config.max_nodes) ==> spent_honestly(*budget, config.max_nodes),
            table_ok(table@),
            history_ok(hints.history@),
        decreases actions@.len() - i,
    {
        let action = actions[i];
        if budget.reached(config.max_nodes) {
            break;
        }
        proof {
            law_play_keeps_inventory(state, action);
        }
        let next = state.apply_legal(action).state;
        proof {
            if exact && tt_move_order {
                assert(legal.contains(action));
                assert(beam_covers(next, (depth - 1) as nat, config));
            }
        }
        budget.count_node();
        let score = minimax(
            next,
            root_player,
            depth - 1,
            alpha,
            beta,
            config,
            tactical_extension,
            tt_move_order,
            ply_from_root + 1,
            budget,
            table,
            hints,
            Ghost(horizon),
            Ghost(exact),
        );
        let ghost previous_best = best;
        let ghost child_alpha = alpha;
        let ghost child_beta = beta;
        if maximizing {
            if score > best || (score == best && action.order() < best_action.order()) {
                best = score;
                best_action = action;
            }
            if best > alpha {
                alpha = best;
            }
        } else {
            if score < best || (score == best && action.order() < best_action.order()) {
                best = score;
                best_action = action;
            }
            if best < beta {
                beta = best;
            }
        }
        searched = true;
        proof {
            if exact && !budget.exhausted {
                let v = beam_value(next, root_player, (depth - 1) as nat, config, tactical_extension);
                let m_prev = beam_extreme(state, root_player, (depth - 1) as nat, config, tactical_extension, moves, i as nat);
                assert(next == state.spec_apply(moves[i as int]).state);
                lemma_extreme_bounds(state, root_player, (depth - 1) as nat, config, tactical_extension, moves, moves.len(), i as int);
                if maximizing {
                    lemma_max_step(window_alpha as int, window_beta as int, previous_best as int, i > 0, m_prev, score as int, v, best as int);
                } else {
                    lemma_min_step(window_alpha as int, window_beta as int, previous_best as int, i > 0, m_prev, score as int, v, best as int);
                }
                if i == 0 {
                    assert(beam_extreme(state, root_player, (depth - 1) as nat, config, tactical_extension, moves, 1) == v);
                }
            }
        }
        if beta <= alpha || budget.reached(config.max_nodes) {
            if beta <= alpha && next.winner.is_none() && next.last_capture == 0 {
                hints.record_history(ply_from_root, action, maximizing, depth);
                hints.record_killer(ply_from_root, action);
            }
            break;
        }
        i = i + 1;
    }
    if !budget.exhausted {
        let bound = if best <= original_alpha {
            Bound::Upper
        } else if best >= original_beta {
            Bound::Lower
        } else {
            Bound::Exact
        };
        let ghost before_put = table@;
        let entry = TableEntry { depth, score: best, bound, best_action: Some(best_action) };
        proof {
            if exact {
                lemma_window(best as int, original_alpha as int, original_beta as int, window_alpha as int, window_beta as int, value);
                assert(slot_sound(TableSlot { state, root: root_player, entry }, root_player, config, tactical_extension, horizon));
            }
        }
        table_put(table, state, root_player, entry);
        proof {
            if exact {
                lemma_table_put_sound(before_put, table@, state, root_player, entry, config, tactical_extension, horizon);
            }
        }
    }
    proof {
        if exact && !budget.exhausted {
            lemma_window(best as int, original_alpha as int, original_beta as int, window_alpha as int, window_beta as int, value);
        }
    }
    budget.reached(config.max_nodes);
    best
}

// ---------------------------------------------------------------------------
// Iterative deepening at the root
// ---------------------------------------------------------------------------

/// One completed iterative-deepening pass: its depth, the node and table-hit
/// counts so far, and the root candidates by descending score.
pub struct SearchTrace {
    pub depth: u8,
    pub nodes: u64,
    pub table_hits: u64,
    pub candidates: Vec<RootSearchCandidate>,
}

/// A root limit of one, with a legal first preference: the search may only
/// answer that preference.
pub open spec fn pinned_root(state: GameState, root_order: Seq<Action>, root_limit: Option<usize>) -> bool {
    &&& root_limit matches Some(limit) && limit <= 1
    &&& root_order.len() > 0
    &&& state.spec_legal_actions().contains(root_order[0])
}

/// A root order of distinct legal actions.
pub open spec fn distinct_legal_order(state: GameState, root_order: Seq<Action>) -> bool {
    &&& root_order.no_duplicates()
    &&& forall|i: int| 0 <= i < root_order.len() ==> state.spec_legal_actions().contains(#[trigger] root_order[i])
}

/// The root search is confined to a whole root order of distinct legal
/// actions.
pub open spec fn confined_root(state: GameState, root_order: Seq<Action>, root_limit: Option<usize>) -> bool {
    &&& root_limit matches Some(limit) && limit == root_order.len()
    &&& root_order.len() > 0
    &&& distinct_legal_order(state, root_order)
}

/// An action the root search may answer.
pub open spec fn root_choice(
    state: GameState,
    root_order: Seq<Action>,
    root_limit: Option<usize>,
    action: Action,
) -> bool {
    &&& state.spec_legal_actions().contains(action)
    &&& pinned_root(state, root_order, root_limit) ==> action == root_order[0]
    &&& confined_root(state, root_order, root_limit) ==> root_order.contains(action)
}

/// A sequence holding exactly the legal actions, as many as there are, lists
/// none twice.
proof fn lemma_legal_permutation_distinct(state: GameState, r: Seq<Action>)
    requires
        r.len() == state.spec_legal_actions().len(),
        forall|i: int| 0 <= i < r.len() ==> state.spec_legal_actions().contains(#[trigger] r[i]),
        forall|a: Action| state.spec_legal_actions().contains(a) ==> r.contains(a),
    ensures
        r.no_duplicates(),
{
    let legal = state.spec_legal_actions();
    crate::rules::lemma_legal_actions_distinct(state);
    assert(r.to_set() =~= legal.to_set()) by {
        assert forall|a: Action| r.to_set().contains(a) implies legal.to_set().contains(a) by {
            let i = choose|i: int| 0 <= i < r.len() && r[i] == a;
        }
    }
    legal.unique_seq_to_set();
    r.lemma_no_dup_set_cardinality();
}

/// A search without a deadline is cut short only by its node budget: when
/// it reports running out, it has used every node.
pub open spec fn spent_budget(config: SearchConfig, result: SearchResult) -> bool {
    result.exhausted ==> result.nodes == config.max_nodes
}

/// What every search result satisfies: a legal action exactly when one
/// exists, the node budget respected, a score strictly inside the search
/// bounds, and every depth completed unless the budget ran out.
pub open spec fn search_result_ok(state: GameState, config: SearchConfig, result: SearchResult) -> bool {
    &&& (result.action is None) == (state.spec_legal_actions().len() == 0)
    &&& result.action matches Some(action) ==> state.spec_legal_actions().contains(action)
    &&& result.nodes <= config.max_nodes
    &&& result.table_hits <= 2 * result.nodes
    &&& result.completed_depth <= config.depth
    &&& NEG_INF < result.score < POS_INF
    &&& result.action is Some && !result.exhausted ==> result.completed_depth == config.depth
    &&& result.action is None ==> result.nodes == 0 && !result.exhausted && result.completed_depth
        == 0 && result.table_hits == 0
    &&& result.action is None ==> is_evaluation(state, state.turn, config.weights, result.score as int)
}

/// Two legal actions of one position with the same action order are the
/// same action.
proof fn lemma_legal_order_injective(state: GameState, a: Action, b: Action)
    requires
        state.spec_legal_actions().contains(a),
        state.spec_legal_actions().contains(b),
        a.spec_order() == b.spec_order(),
    ensures
        a == b,
{
    crate::rules::lemma_legal_action_shape(state, a);
    crate::rules::lemma_legal_action_shape(state, b);
    match (a, b) {
        (Action::Relocate { from: f1, to: t1 }, Action::Relocate { from: f2, to: t2 }) => {
            crate::rules::lemma_legal_action_shape(state, a);
            assert(t1 < 64 && t2 < 64);
            assert(f1 == f2 && t1 == t2) by (nonlinear_arith)
                requires
                    f1 * 64 + t1 == f2 * 64 + t2,
                    t1 < 64,
                    t2 < 64,
                    t1 >= 0,
                    t2 >= 0,
            ;
        },
        _ => {},
    }
}

/// The `k`-th recorded pass: depth `k + 1`, its candidates ranked by
/// descending score then action order, and its node count within `nodes`.
pub open spec fn traced_pass(trace: SearchTrace, k: int, nodes: u64) -> bool {
    &&& trace.depth == k + 1
    &&& ranked(candidate_pairs(trace.candidates@), true, true)
    &&& trace.nodes <= nodes
}

/// A candidate list read as action-score pairs.
pub open spec fn candidate_pairs(candidates: Seq<RootSearchCandidate>) -> Seq<(Action, i32)> {
    candidates.map_values(|c: RootSearchCandidate| (c.action, c.score))
}

/// Candidates by descending score, then action order.
fn sorted_candidates(candidates: &Vec<RootSearchCandidate>) -> (r: Vec<RootSearchCandidate>)
    ensures
        r@.len() == candidates@.len(),
        candidate_pairs(r@).to_multiset() == candidate_pairs(candidates@).to_multiset(),
        ranked(candidate_pairs(r@), true, true),
{
    let mut pairs: Vec<(Action, i32)> = Vec::new();
    let mut i: usize = 0;
    while i < candidates.len()
        invariant
            i <= candidates@.len(),
            pairs@ == candidate_pairs(candidates@).take(i as int),
        decreases candidates@.len() - i,
    {
        pairs.push((candidates[i].action, candidates[i].score));
        i = i + 1;
        proof {
            assert(pairs@ =~= candidate_pairs(candidates@).take(i as int));
        }
    }
    proof {
        assert(pairs@ =~= candidate_pairs(candidates@));
    }
    let sorted = sort_ranked(&pairs, true, true);
    let mut result: Vec<RootSearchCandidate> = Vec::new();
    let mut k: usize = 0;
    while k < sorted.len()
        invariant
            k <= sorted@.len(),
            result@.len() == k,
            candidate_pairs(result@) == sorted@.take(k as int),
        decreases sorted@.len() - k,
    {
        let ghost before = result@;
        result.push(RootSearchCandidate { action: sorted[k].0, score: sorted[k].1 });
        k = k + 1;
        proof {
            assert forall|q: int| 0 <= q < k implies #[trigger] candidate_pairs(result@)[q] == sorted@.take(k as int)[q] by {
                if q < k - 1 {
                    assert(result@[q] == before[q]);
                    assert(candidate_pairs(before)[q] == sorted@.take(k - 1)[q]);
                }
            }
            assert(candidate_pairs(result@) =~= sorted@.take(k as int));
        }
    }
    proof {
        assert(candidate_pairs(result@) =~= sorted@);
    }
    result
}

/// The beam minimax value, for the side to move, of the position that
/// `action` leads to when the search looks `depth` plies deep from `state`.
pub open spec fn root_child_value(
    state: GameState,
    config: SearchConfig,
    extension: bool,
    depth: nat,
    action: Action,
) -> int {
    beam_value(state.spec_apply(action).state, state.turn, (depth - 1) as nat, config, extension)
}

/// `action` is a best legal move of `state` at `depth` with value `score`:
/// no legal move's child scores higher, and among the legal moves whose
/// child scores `score` it comes first in action order.
pub open spec fn root_best(
    state: GameState,
    config: SearchConfig,
    extension: bool,
    depth: nat,
    action: Action,
    score: int,
) -> bool {
    &&& state.spec_legal_actions().contains(action)
    &&& root_child_value(state, config, extension, depth, action) == score
    &&& forall|b: Action|
        #[trigger] state.spec_legal_actions().contains(b) ==> root_child_value(state, config, extension, depth, b)
            <= score
    &&& forall|b: Action|
        #[trigger] state.spec_legal_actions().contains(b) && root_child_value(state, config, extension, depth, b)
            == score ==> action.spec_order() <= b.spec_order()
}

/// A completed search has one answer: two best moves at the same depth are
/// the same move with the same score. So the order in which a caller lists
/// the root moves cannot change what a completed search returns.
pub proof fn law_completed_search_is_unique(
    state: GameState,
    config: SearchConfig,
    extension: bool,
    depth: nat,
    a: Action,
    score_a: int,
    b: Action,
    score_b: int,
)
    requires
        root_best(state, config, extension, depth, a, score_a),
        root_best(state, config, extension, depth, b, score_b),
    ensures
        a == b,
        score_a == score_b,
{
    lemma_legal_order_injective(state, a, b);
}

/// A search that completed no depth answers with the caller's first root
/// action, when that action is legal.
pub open spec fn unsearched_head(state: GameState, root_order: Seq<Action>, r: SearchResult) -> bool {
    r.completed_depth == 0 && root_order.len() > 0 && state.spec_legal_actions().contains(root_order[0]) ==> r.action
        == Some(root_order[0])
}

/// What [`search_best_action`] promises of its result: a legal answer
/// inside the budget, a spent budget reported as such, and, when the search
/// completed, a best move of the beam-limited minimax at the configured depth.
pub open spec fn plain_search_ok(state: GameState, config: SearchConfig, r: SearchResult) -> bool {
    &&& search_result_ok(state, config, r)
    &&& spent_budget(config, r)
    &&& config.depth > 0 && !r.exhausted && state.spec_legal_actions().len() > 0 ==> (r.action matches Some(a)
        && root_best(state, config, false, config.depth as nat, a, r.score as int))
}

/// One root move: a fail-soft probe with the running best as floor, and a
/// full-window re-search when it ties the best and comes earlier in action
/// order, keep the running pair the best value and its earliest move.
proof fn lemma_root_step(
    alpha: int,
    previous_score: int,
    previous_order: int,
    probe: int,
    researched: bool,
    score: int,
    value: int,
    order: int,
    updated: bool,
    started: bool,
)
    requires
        started ==> alpha == previous_score,
        !started ==> alpha == NEG_INF && previous_score == NEG_INF,
        NEG_INF < probe < POS_INF,
        fail_soft(probe, alpha, POS_INF as int, value),
        researched == (alpha != NEG_INF && probe == alpha && order < previous_order),
        researched ==> score == value,
        !researched ==> score == probe,
        updated == (score > previous_score || (score == previous_score && order < previous_order)),
    ensures
        updated ==> score == value && value >= previous_score,
        updated && value == previous_score ==> order < previous_order,
        !updated ==> value <= previous_score && (value == previous_score ==> previous_order <= order),
{
}

/// The iterative-deepening alpha-beta driver behind every search entry
/// point. Each pass searches the root actions in the caller's order (with
/// the previous pass's best first); a pass cut short by the node budget or
/// the deadline is discarded, and the last completed pass answers. When
/// `record` is set, each completed pass is also returned as a trace.
#[verifier::rlimit(60)]
fn search_root(
    state: GameState,
    config: SearchConfig,
    root_order: &[Action],
    tactical_extension: bool,
    root_limit: Option<usize>,
    tt_move_order: bool,
    deadline: Option<std::time::Instant>,
    record: bool,
) -> (r: (SearchResult, Vec<SearchTrace>))
    requires
        searchable(state, config.depth as int),
        config.fits(),
    ensures
        search_result_ok(state, config, r.0),
        r.0.action matches Some(action) ==> root_choice(state, root_order@, root_limit, action),
        !record ==> r.1@.len() == 0,
        deadline is None && r.0.exhausted ==> r.0.nodes == config.max_nodes,
        record ==> r.1@.len() == r.0.completed_depth,
        forall|k: int| 0 <= k < r.1@.len() ==> traced_pass(#[trigger] r.1@[k], k, r.0.nodes),
        forall|k: int| 0 < k < r.1@.len() ==> (#[trigger] r.1@[k]).nodes >= r.1@[k - 1].nodes,
        record && r.0.completed_depth > 0 ==> r.1@.last().candidates@.len() > 0 && r.0.action == Some(
            r.1@.last().candidates@[0].action,
        ) && r.0.score == r.1@.last().candidates@[0].score,
        (!tt_move_order || beam_covers(state, config.depth as nat, config)) && root_limit is None && config.depth > 0 && !r.0.exhausted
            && state.spec_legal_actions().len() > 0 ==> (r.0.action matches Some(
            a,
        ) && root_best(state, config, tactical_extension, config.depth as nat, a, r.0.score as int)),
        unsearched_head(state, root_order@, r.0),
{
    let ghost exact_root: bool = !tt_move_order || beam_covers(state, config.depth as nat, config);
    let root_player = state.turn;
    let ghost legal = state.spec_legal_actions();
    let mut traces: Vec<SearchTrace> = Vec::new();
    proof {
        lemma_cells(state.config.board_size as int);
    }
    let mut initial_actions = root_ordered_actions(state, root_player, config.weights, root_order);
    limit_root_actions(&mut initial_actions, root_limit);
    if initial_actions.len() == 0 {
        proof {
            if legal.len() > 0 {
                assert(legal.contains(legal[0]));
            }
        }
        return (
            SearchResult {
                action: None,
                score: evaluate_bounded(state, root_player, config.weights),
                nodes: 0,
                exhausted: false,
                completed_depth: 0,
                table_hits: 0,
            },
            traces,
        );
    }
    let mut budget = Budget::new(deadline);
    let mut table: HashMap<u128, Vec<TableSlot>> = HashMap::new();
    let mut hints = SearchHints::new();
    let mut best_action = initial_actions[0];
    let mut best_score = NEG_INF;
    let mut completed_depth: u8 = 0;
    proof {
        broadcast use vstd::std_specs::hash::group_hash_axioms;

        assert(table_ok(table@));
        lemma_table_sound_horizon(table@, root_player, config, tactical_extension, 0, state.ply + 1);
        assert(legal.contains(best_action));
        if pinned_root(state, root_order@, root_limit) {
            assert(initial_actions@[0] == root_order@[0]);
        }
    }
    let ghost head = initial_actions@[0];
    assert(root_order@.len() > 0 && legal.contains(root_order@[0]) ==> head == root_order@[0]);
    let mut depth: u16 = 1;
    while depth <= config.depth as u16
        invariant_except_break
            !budget.exhausted,
        invariant
            exact_root == (!tt_move_order || beam_covers(state, config.depth as nat, config)),
            searchable(state, config.depth as int),
            config.fits(),
            legal == state.spec_legal_actions(),
            root_player == state.turn,
            legal.len() > 0,
            1 <= depth <= config.depth as int + 1,
            completed_depth == depth - 1,
            root_choice(state, root_order@, root_limit, best_action),
            completed_depth == 0 ==> best_action == head,
            completed_depth > 0 ==> NEG_INF < best_score < POS_INF,
            budget.nodes <= config.max_nodes,
            budget.table_hits <= 2 * budget.nodes,
            budget.deadline == deadline,
            spent_honestly(budget, config.max_nodes),
            table_ok(table@),
            history_ok(hints.history@),
            !record ==> traces@.len() == 0,
            record ==> traces@.len() == completed_depth,
            record && completed_depth > 0 ==> traces@.last().candidates@.len() > 0 && traces@.last().candidates@[0]
                == (RootSearchCandidate { action: best_action, score: best_score }),
            forall|k: int| 0 <= k < traces@.len() ==> traced_pass(#[trigger] traces@[k], k, budget.nodes),
            forall|k: int| 0 < k < traces@.len() ==> (#[trigger] traces@[k]).nodes >= traces@[k - 1].nodes,
            exact_root ==> table_sound(table@, root_player, config, tactical_extension, state.ply + depth),
            exact_root && !budget.exhausted && completed_depth > 0 && root_limit is None ==> root_best(
                state,
                config,
                tactical_extension,
                completed_depth as nat,
                best_action,
                best_score as int,
            ),
        ensures
            budget.exhausted || completed_depth == config.depth,
            completed_depth <= config.depth,
            root_choice(state, root_order@, root_limit, best_action),
            completed_depth == 0 ==> best_action == head,
            completed_depth > 0 ==> NEG_INF < best_score < POS_INF,
            budget.nodes <= config.max_nodes,
            budget.table_hits <= 2 * budget.nodes,
            budget.deadline == deadline,
            spent_honestly(budget, config.max_nodes),
            !record ==> traces@.len() == 0,
            record ==> traces@.len() == completed_depth,
            record && completed_depth > 0 ==> traces@.last().candidates@.len() > 0 && traces@.last().candidates@[0]
                == (RootSearchCandidate { action: best_action, score: best_score }),
            forall|k: int| 0 <= k < traces@.len() ==> traced_pass(#[trigger] traces@[k], k, budget.nodes),
            forall|k: int| 0 < k < traces@.len() ==> (#[trigger] traces@[k]).nodes >= traces@[k - 1].nodes,
            exact_root && !budget.exhausted && completed_depth > 0 && root_limit is None ==> root_best(
                state,
                config,
                tactical_extension,
                completed_depth as nat,
                best_action,
                best_score as int,
            ),
        decreases config.depth as int + 1 - depth,
    {
        let mut actions = root_ordered_actions(state, root_player, config.weights, root_order);
        limit_root_actions(&mut actions, root_limit);
        proof {
            assert(legal.contains(legal[0]));
            if pinned_root(state, root_order@, root_limit) {
                assert(actions@.len() == 1);
            }
            assert forall|k: int| 0 <= k < actions@.len() implies root_choice(
                state,
                root_order@,
                root_limit,
                #[trigger] actions@[k],
            ) by {}
        }
        let ghost before_first = actions@;
        put_first(&mut actions, best_action);
        proof {
            if root_limit is None {
                assert forall|b: Action| #[trigger] legal.contains(b) implies actions@.contains(b) by {
                    assert(before_first.contains(b));
                }
            }
        }
        let mut iteration_action = actions[0];
        let mut iteration_score = NEG_INF;
        let mut alpha = NEG_INF;
        let mut complete = true;
        let mut candidates: Vec<RootSearchCandidate> = Vec::new();
        let ghost pass_start = budget.nodes;
        let mut i: usize = 0;
        while i < actions.len()
            invariant_except_break
                complete,
                !budget.exhausted,
                candidates@.len() == i,
                i == 0 ==> iteration_action == actions@[0],
                i > 0 ==> NEG_INF < iteration_score < POS_INF,
                i == 0 ==> iteration_score == NEG_INF,
                alpha < POS_INF,
                i == 0 ==> alpha == NEG_INF,
                i > 0 ==> alpha == iteration_score,
                exact_root && !budget.exhausted && i > 0 ==> root_child_value(
                    state,
                    config,
                    tactical_extension,
                    depth as nat,
                    iteration_action,
                ) == iteration_score,
                exact_root && !budget.exhausted ==> forall|k: int|
                    0 <= k < i ==> root_child_value(state, config, tactical_extension, depth as nat, #[trigger] actions@[k])
                        <= iteration_score && (root_child_value(state, config, tactical_extension, depth as nat, actions@[k])
                        == iteration_score ==> iteration_action.spec_order() <= actions@[k].spec_order()),
            invariant
                exact_root == (!tt_move_order || beam_covers(state, config.depth as nat, config)),
                exact_root ==> table_sound(table@, root_player, config, tactical_extension, state.ply + depth),
                root_limit is None ==> forall|b: Action| #[trigger] legal.contains(b) ==> actions@.contains(b),
                searchable(state, config.depth as int),
                config.fits(),
                1 <= depth <= config.depth,
                legal == state.spec_legal_actions(),
                root_player == state.turn,
                actions@.len() > 0,
                forall|k: int| 0 <= k < actions@.len() ==> root_choice(state, root_order@, root_limit, #[trigger] actions@[k]),
                root_choice(state, root_order@, root_limit, iteration_action),
                i <= actions@.len(),
                NEG_INF <= alpha <= POS_INF,
                NEG_INF <= iteration_score <= POS_INF,
                budget.nodes <= config.max_nodes,
                budget.table_hits <= 2 * budget.nodes,
                budget.deadline == deadline,
                spent_honestly(budget, config.max_nodes),
                pass_start <= budget.nodes,
                candidates@.len() > 0 ==> candidate_pairs(candidates@).contains((iteration_action, iteration_score)),
                forall|q: int| 0 <= q < candidates@.len() ==> !precedes(
                    #[trigger] candidate_pairs(candidates@)[q],
                    (iteration_action, iteration_score),
                    true,
                    true,
                ),
                forall|q: int| 0 <= q < candidates@.len() ==> root_choice(state, root_order@, root_limit, (#[trigger] candidates@[q]).action),

                table_ok(table@),
                history_ok(hints.history@),
            ensures
                exact_root ==> table_sound(table@, root_player, config, tactical_extension, state.ply + depth),
                complete && exact_root ==> root_child_value(state, config, tactical_extension, depth as nat, iteration_action)
                    == iteration_score,
                complete && exact_root ==> forall|k: int|
                    0 <= k < actions@.len() ==> root_child_value(state, config, tactical_extension, depth as nat, #[trigger] actions@[k])
                        <= iteration_score && (root_child_value(state, config, tactical_extension, depth as nat, actions@[k])
                        == iteration_score ==> iteration_action.spec_order() <= actions@[k].spec_order()),
                complete ==> NEG_INF < iteration_score < POS_INF && !budget.exhausted,
                complete ==> candidates@.len() > 0 && candidate_pairs(candidates@).contains((iteration_action, iteration_score)),
                forall|q: int| 0 <= q < candidates@.len() ==> !precedes(
                    #[trigger] candidate_pairs(candidates@)[q],
                    (iteration_action, iteration_score),
                    true,
                    true,
                ),
                forall|q: int| 0 <= q < candidates@.len() ==> root_choice(state, root_order@, root_limit, (#[trigger] candidates@[q]).action),
                pass_start <= budget.nodes,
                !complete ==> budget.exhausted,
                root_choice(state, root_order@, root_limit, iteration_action),
                budget.nodes <= config.max_nodes,
                budget.table_hits <= 2 * budget.nodes,
                budget.deadline == deadline,
                spent_honestly(budget, config.max_nodes),
                pass_start <= budget.nodes,
                table_ok(table@),
                history_ok(hints.history@),
            decreases actions@.len() - i,
        {
            if budget.reached(config.max_nodes) {
                complete = false;
                break;
            }
            let action = actions[i];
            proof {
                law_play_keeps_inventory(state, action);
            }
            let next = state.apply_legal(action).state;
            proof {
                if exact_root && tt_move_order {
                    lemma_beam_covers_shallower(state, config.depth as nat, depth as nat, config);
                    assert(state.spec_legal_actions().contains(action));
                    assert(beam_covers(next, (depth - 1) as nat, config));
                }
            }
            budget.count_node();
            let mut score = minimax(
                next,
                root_player,
                (depth - 1) as u8,
                alpha,
                POS_INF,
                config,
                tactical_extension,
                tt_move_order,
                1,
                &mut budget,
                &mut table,
                &mut hints,
                Ghost(state.ply + depth as int),
                Ghost(exact_root),
            );
            let ghost probe = score;
            let ghost exhausted_after_probe = budget.exhausted;
            let researched = alpha != NEG_INF && score == alpha && action.order() < iteration_action.order();
            if researched {
                score = minimax(
                    next,
                    root_player,
                    (depth - 1) as u8,
                    NEG_INF,
                    POS_INF,
                    config,
                    tactical_extension,
                    tt_move_order,
                    1,
                    &mut budget,
                    &mut table,
                    &mut hints,
                    Ghost(state.ply + depth as int),
                    Ghost(exact_root),
                );
            }
            let ghost previous = (iteration_action, iteration_score);
            let ghost previous_alpha = alpha;
            let ghost updated = score > iteration_score || (score == iteration_score && action.spec_order()
                < iteration_action.spec_order());
            if score > iteration_score || (score == iteration_score && action.order()
                < iteration_action.order()) {
                iteration_action = action;
                iteration_score = score;
            }
            let ghost before_candidates = candidates@;
            candidates.push(RootSearchCandidate { action, score });
            proof {
                assert(candidate_pairs(candidates@) =~= candidate_pairs(before_candidates).push((action, score)));
                assert(candidate_pairs(candidates@)[candidates@.len() - 1] == (action, score));
                assert(root_choice(state, root_order@, root_limit, action));
                let cp = candidate_pairs(candidates@);
                let p = (iteration_action, iteration_score);
                if p != (action, score) {
                    assert(p == previous);
                    if before_candidates.len() > 0 {
                        let w = choose|w: int|
                            0 <= w < candidate_pairs(before_candidates).len() && candidate_pairs(before_candidates)[w]
                                == previous;
                        assert(cp[w] == previous);
                    } else {
                        assert(i == 0);
                    }
                }
                assert(cp.contains(p));
            }
            if iteration_score > alpha {
                alpha = iteration_score;
            }
            if budget.exhausted {
                complete = false;
                break;
            }
            proof {
                if exact_root {
                    let v = root_child_value(state, config, tactical_extension, depth as nat, action);
                    assert(next == state.spec_apply(action).state);
                    assert(((depth - 1) as u8) as nat == (depth as nat - 1) as nat);
                    assert(!exhausted_after_probe);
                    assert(fail_soft(probe as int, previous_alpha as int, POS_INF as int, v));
                    lemma_root_step(
                        previous_alpha as int,
                        previous.1 as int,
                        previous.0.spec_order(),
                        probe as int,
                        researched,
                        score as int,
                        v,
                        action.spec_order(),
                        updated,
                        i > 0,
                    );
                    assert(actions@[i as int] == action);
                    assert forall|k: int|
                        0 <= k < i + 1 implies root_child_value(state, config, tactical_extension, depth as nat, #[trigger] actions@[k])
                            <= iteration_score && (root_child_value(state, config, tactical_extension, depth as nat, actions@[k])
                            == iteration_score ==> iteration_action.spec_order() <= actions@[k].spec_order()) by {
                        if k < i {
                            assert(root_child_value(state, config, tactical_extension, depth as nat, actions@[k]) <= previous.1);
                        }
                    }
                }
            }
            i = i + 1;
        }
        if !complete {
            break;
        }
        if record {
            let sorted = sorted_candidates(&candidates);
            proof {
                broadcast use vstd::seq_lib::group_to_multiset_ensures;

                let p = (iteration_action, iteration_score);
                let cp = candidate_pairs(candidates@);
                let sp = candidate_pairs(sorted@);
                assert(cp.contains(p));
                assert(cp.to_multiset().count(p) > 0);
                assert(sp.contains(p));
                let m = choose|m: int| 0 <= m < sp.len() && sp[m] == p;
                assert(sp.len() > 0);
                assert(sp.to_multiset().count(sp[0]) > 0);
                assert(cp.contains(sp[0]));
                let q = choose|q: int| 0 <= q < cp.len() && cp[q] == sp[0];
                assert(!precedes(cp[q], p, true, true));
                if m > 0 {
                    assert(!precedes(sp[m], sp[0], true, true));
                }
                assert(sp[0].1 == p.1);
                assert(cp[q].0 == candidates@[q].action);
                assert(root_choice(state, root_order@, root_limit, candidates@[q].action));
                lemma_legal_order_injective(state, sp[0].0, p.0);
                assert(sorted@[0] == RootSearchCandidate { action: sp[0].0, score: sp[0].1 });
            }
            traces.push(
                SearchTrace {
                    depth: depth as u8,
                    nodes: budget.nodes,
                    table_hits: budget.table_hits,
                    candidates: sorted,
                },
            );
        }
        proof {
            if exact_root && root_limit is None {
                assert forall|b: Action| #[trigger] legal.contains(b) implies root_child_value(state, config, tactical_extension, depth as nat, b)
                    <= iteration_score && (root_child_value(state, config, tactical_extension, depth as nat, b)
                    == iteration_score ==> iteration_action.spec_order() <= b.spec_order()) by {
                    assert(actions@.contains(b));
                    let k = choose|k: int| 0 <= k < actions@.len() && actions@[k] == b;
                }
            }
        }
        proof {
            if exact_root {
                lemma_table_sound_horizon(table@, root_player, config, tactical_extension, state.ply + depth, state.ply + depth + 1);
            }
        }
        best_action = iteration_action;
        best_score = iteration_score;
        completed_depth = depth as u8;
        depth = depth + 1;
    }
    if completed_depth == 0 {
        proof {
            law_play_keeps_inventory(state, best_action);
        }
        best_score = evaluate_bounded(state.apply_legal(best_action).state, root_player, config.weights);
    }
    (
        SearchResult {
            action: Some(best_action),
            score: best_score,
            nodes: budget.nodes,
            exhausted: budget.exhausted,
            completed_depth,
            table_hits: budget.table_hits,
        },
        traces,
    )
}

// ---------------------------------------------------------------------------
// Entry points
// ---------------------------------------------------------------------------

/// The configurations and positions every search entry point accepts.
pub open spec fn search_ready(state: GameState, config: SearchConfig) -> bool {
    &&& searchable(state, config.depth as int)
    &&& config.fits()
}

/// The searches that also look at the opponent's replies to each root move
/// need room for two more plies.
pub open spec fn tactical_ready(state: GameState, config: SearchConfig) -> bool {
    &&& search_ready(state, config)
    &&& state.ply + 2 <= u16::MAX
}

pub fn search_best_action(state: GameState, config: SearchConfig) -> (r: SearchResult)
    requires
        search_ready(state, config),
    ensures
        search_result_ok(state, config, r),
        spent_budget(config, r),
        config.depth > 0 && !r.exhausted && state.spec_legal_actions().len() > 0 ==> (r.action matches Some(a)
            && root_best(state, config, false, config.depth as nat, a, r.score as int)),
{
    let no_order: Vec<Action> = Vec::new();
    search_best_action_with_root_order(state, config, no_order.as_slice())
}

/// The ordinary search with both a node ceiling and a wall-clock deadline:
/// iterative deepening answers from the last fully completed depth when
/// either limit is reached, and the answer stays legal.
pub fn search_best_action_with_deadline(state: GameState, config: SearchConfig, deadline_ms: u32) -> (r: SearchResult)
    requires
        search_ready(state, config),
    ensures
        search_result_ok(state, config, r),
{
    let no_order: Vec<Action> = Vec::new();
    search_root(state, config, no_order.as_slice(), false, None, true, deadline_after_ms(deadline_ms), false).0
}

/// The result of a search answered from a promoted golden table.
pub open spec fn golden_answer(result: SearchResult) -> bool {
    &&& result.action is Some
    &&& result.score == WIN_SCORE
    &&& result.nodes == 0
    &&& !result.exhausted
    &&& result.completed_depth == 0
    &&& result.table_hits == 1
}

/// Consults an in-memory golden table (and its optional action sidecar)
/// The proven action that golden bytes give a position: none unless the
/// table answers a win; then the action book's, when a non-empty sidecar is
/// given.
pub open spec fn golden_bytes_action(table: Seq<u8>, sidecar: Option<Seq<u8>>, state: GameState) -> Option<Action> {
    let size = state.config.board_size;
    if table_probe(table, size, state.config.reserve_per_player, state) != Some(GoldenOutcome::Win) {
        None
    } else {
        match sidecar {
            Some(bytes) => if bytes.len() > 0 {
                match parsed_book(bytes, size) {
                    Ok(rows) => book_proven_action(rows, size, state),
                    Err(_) => None,
                }
            } else {
                None
            },
            None => None,
        }
    }
}

/// before searching: a proven winning action answers at once; every other
/// position goes through the ordinary search. Also returns the table's
/// outcome and whether the golden action was used.
pub fn search_best_action_with_golden_bytes(
    state: GameState,
    config: SearchConfig,
    table_bytes: &[u8],
    sidecar_bytes: Option<&[u8]>,
) -> (r: Result<(SearchResult, Option<GoldenOutcome>, bool), String>)
    requires
        search_ready(state, config),
        markers_on_board(state),
    ensures
        r is Ok <==> open_problem(table_bytes@, slice_view(sidecar_bytes), state.config.board_size)
            is None,
        r matches Err(e) ==> open_problem(
            table_bytes@,
            slice_view(sidecar_bytes),
            state.config.board_size,
        ) == Some(e@),
        r matches Ok((result, outcome, used)) ==> {
            &&& used ==> golden_answer(result) && outcome == Some(GoldenOutcome::Win)
            &&& used ==> (sidecar_bytes matches Some(sidecar) && exists|rows: Seq<BookRowView>|
                parsed_book(sidecar@, state.config.board_size) == Ok::<
                    Seq<BookRowView>,
                    Seq<char>,
                >(rows) && book_proven_action(rows, state.config.board_size, state)
                    == result.action)
            &&& !used ==> plain_search_ok(state, config, result)
            &&& outcome == table_probe(
                table_bytes@,
                state.config.board_size,
                state.config.reserve_per_player,
                state,
            )
            &&& used == golden_bytes_action(table_bytes@, slice_view(sidecar_bytes), state) is Some
            &&& used ==> result.action == golden_bytes_action(table_bytes@, slice_view(sidecar_bytes), state)
            &&& table_sorted(table_bytes@, state.config.board_size) ==> outcome == table_answer(
                table_bytes@,
                state.config.board_size,
                state.config.reserve_per_player,
                state,
            )
        },
{
    let golden = match MemoryGoldenLookup::open_bytes(
        table_bytes,
        sidecar_bytes,
        state.config.board_size,
        state.config.reserve_per_player,
    ) {
        Ok(golden) => golden,
        Err(error) => {
            return Err(error);
        },
    };
    let outcome = golden.lookup(state);
    let action = if outcome == Some(GoldenOutcome::Win) {
        golden.proven_action(state)
    } else {
        None
    };
    match action {
        Some(action) => Ok(
            (
                SearchResult {
                    action: Some(action),
                    score: WIN_SCORE,
                    nodes: 0,
                    exhausted: false,
                    completed_depth: 0,
                    table_hits: 1,
                },
                outcome,
                true,
            ),
        ),
        None => Ok((search_best_action(state, config), outcome, false)),
    }
}

/// Answers a position that a golden lookup proves won with the book's proven
/// action; searches every other position.
pub fn search_best_action_with_golden(state: GameState, config: SearchConfig, golden: &MemoryGoldenLookup) -> (r: SearchResult)
    requires
        search_ready(state, config),
        markers_on_board(state),
    ensures
        golden_answer(r) || search_result_ok(state, config, r),
        golden_answer(r) ==> (golden.actions matches Some(book) && book_proven_action(
            book@,
            book.spec_board_size(),
            state,
        ) == r.action),
        golden.sorted() ==> match golden.proven(state) {
            Some(a) => golden_answer(r) && r.action == Some(a),
            None => plain_search_ok(state, config, r),
        },
        match golden.proven_probed(state) {
            Some(a) => golden_answer(r) && r.action == Some(a),
            None => plain_search_ok(state, config, r),
        },
{
    match golden.proven_action(state) {
        Some(action) => SearchResult {
            action: Some(action),
            score: WIN_SCORE,
            nodes: 0,
            exhausted: false,
            completed_depth: 0,
            table_hits: 1,
        },
        None => search_best_action(state, config),
    }
}

/// The layered form of [`search_best_action_with_golden`]: the layer that
/// owns the position answers it when it proves a win with an action.
pub fn search_best_action_with_golden_layers(
    state: GameState,
    config: SearchConfig,
    golden: &MemoryGoldenLookupLayers,
) -> (r: SearchResult)
    requires
        search_ready(state, config),
        markers_on_board(state),
    ensures
        golden_answer(r) || search_result_ok(state, config, r),
        golden.all_sorted() ==> match (match golden.owner(state) {
            Some(i) => golden.spec_layers()[i].proven(state),
            None => None,
        }) {
            Some(a) => golden_answer(r) && r.action == Some(a),
            None => plain_search_ok(state, config, r),
        },
        match (match golden.probe_owner(state) {
            Some(i) => golden.spec_layers()[i].proven_probed(state),
            None => None,
        }) {
            Some(a) => golden_answer(r) && r.action == Some(a),
            None => plain_search_ok(state, config, r),
        },
{
    match golden.proven_action(state) {
        Some(action) => SearchResult {
            action: Some(action),
            score: WIN_SCORE,
            nodes: 0,
            exhausted: false,
            completed_depth: 0,
            table_hits: 1,
        },
        None => search_best_action(state, config),
    }
}

/// Whether a search can start from `state` under `config`.
pub fn can_search(state: GameState, config: SearchConfig) -> (r: bool)
    ensures
        r == search_ready(state, config),
{
    let w = config.weights;
    let weights_fit = -MAX_WEIGHT <= w.path && w.path <= MAX_WEIGHT && -MAX_WEIGHT <= w.material
        && w.material <= MAX_WEIGHT && -MAX_WEIGHT <= w.capture && w.capture <= MAX_WEIGHT
        && -MAX_WEIGHT <= w.structure && w.structure <= MAX_WEIGHT && -MAX_WEIGHT <= w.threat
        && w.threat <= MAX_WEIGHT && -MAX_WEIGHT <= w.edge && w.edge <= MAX_WEIGHT;
    let size_ok = 3 <= state.config.board_size && state.config.board_size <= 8;
    let markers_ok = match state.last_relocated_to[0] {
        Some(square) => square < 64,
        None => true,
    } && match state.last_relocated_to[1] {
        Some(square) => square < 64,
        None => true,
    };
    let light = popcount(state.light) as u64 + state.reserve[0] as u64;
    let dark = popcount(state.dark) as u64 + state.reserve[1] as u64;
    weights_fit && config.max_nodes <= 0x1000_0000_0000_0000 && size_ok && markers_ok && light
        <= 251 && dark <= 251 && state.ply as u64 + config.depth as u64 + 1 <= u16::MAX as u64
}

/// Whether a tactical search can start from `state` under `config`.
pub fn can_search_tactically(state: GameState, config: SearchConfig) -> (r: bool)
    ensures
        r == tactical_ready(state, config),
{
    can_search(state, config) && state.ply as u64 + 2 <= u16::MAX as u64
}

/// Whether the position's relocation markers name squares of its board.
pub fn markers_fit(state: GameState) -> (r: bool)
    ensures
        r == markers_on_board(state),
{
    let size = state.config.board_size as u64;
    proof {
        assert(size * size <= 255 * 255) by (nonlinear_arith)
            requires
                size <= 255,
        ;
    }
    let cells = size * size;
    proof {
        assert(cells == cell_count(state.config.board_size as int));
    }
    (match state.last_relocated_to[0] {
        Some(square) => (square as u64) < cells,
        None => true,
    }) && (match state.last_relocated_to[1] {
        Some(square) => (square as u64) < cells,
        None => true,
    })
}

/// The layered form of [`search_best_action_with_golden_bytes`]: the layers
/// are consulted in priority order.
pub fn search_best_action_with_golden_layers_bytes(
    state: GameState,
    config: SearchConfig,
    layers: &[(&[u8], Option<&[u8]>)],
) -> (r: Result<(SearchResult, Option<GoldenOutcome>, bool), String>)
    requires
        search_ready(state, config),
        markers_on_board(state),
    ensures
        layers@.len() == 0 ==> (r matches Err(e) && e@ == "golden lookup requires at least one layer"@),
        layers@.len() > 0 ==> (r is Ok <==> first_open_problem(
            layers@,
            state.config.board_size,
            layers@.len(),
        ) is None),
        layers@.len() > 0 ==> (r matches Err(e) ==> first_open_problem(
            layers@,
            state.config.board_size,
            layers@.len(),
        ) == Some(e@)),
        r matches Ok((result, outcome, used)) ==> {
            &&& used ==> golden_answer(result) && outcome == Some(GoldenOutcome::Win)
            &&& !used ==> plain_search_ok(state, config, result)
        },
{
    let golden = match MemoryGoldenLookupLayers::open_bytes(
        layers,
        state.config.board_size,
        state.config.reserve_per_player,
    ) {
        Ok(golden) => golden,
        Err(error) => {
            return Err(error);
        },
    };
    proof {
        assert forall|i: int| 0 <= i < golden.spec_layers().len() implies (
        #[trigger] golden.spec_layers()[i]).ready_for(state) by {
            assert(golden.spec_layers()[i].table.spec_board_size() == state.config.board_size);
        }
    }
    let outcome = golden.lookup(state);
    let action = if outcome == Some(GoldenOutcome::Win) {
        golden.proven_action(state)
    } else {
        None
    };
    match action {
        Some(action) => Ok(
            (
                SearchResult {
                    action: Some(action),
                    score: WIN_SCORE,
                    nodes: 0,
                    exhausted: false,
                    completed_depth: 0,
                    table_hits: 1,
                },
                outcome,
                true,
            ),
        ),
        None => Ok((search_best_action(state, config), outcome, false)),
    }
}

/// The ordinary search with transposition-table, killer and history move
/// ordering enabled; the legal root set and the evaluator are unchanged.
pub fn search_best_action_with_tt_order(state: GameState, config: SearchConfig) -> (r: SearchResult)
    requires
        search_ready(state, config),
    ensures
        search_result_ok(state, config, r),
        spent_budget(config, r),
        config.depth > 0 && !r.exhausted && state.spec_legal_actions().len() > 0 && beam_covers(
            state,
            config.depth as nat,
            config,
        ) ==> (r.action matches Some(a) && root_best(state, config, false, config.depth as nat, a, r.score as int)),
{
    let no_order: Vec<Action> = Vec::new();
    search_root(state, config, no_order.as_slice(), false, None, true, None, false).0
}

/// Searches every legal root action, threat-free moves first.
pub fn search_best_action_with_tactical_guard(state: GameState, config: SearchConfig) -> (r: SearchResult)
    requires
        tactical_ready(state, config),
    ensures
        search_result_ok(state, config, r),
        spent_budget(config, r),
        config.depth > 0 && !r.exhausted && state.spec_legal_actions().len() > 0 && beam_covers(
            state,
            config.depth as nat,
            config,
        ) ==> (r.action matches Some(a) && root_best(state, config, false, config.depth as nat, a, r.score as int)),
{
    let root_order = ordered_root_actions_with_tactical_guard(state, state.turn, config.weights);
    search_root(state, config, root_order.as_slice(), false, None, true, None, false).0
}

fn search_best_action_with_tactical_filter_until(
    state: GameState,
    config: SearchConfig,
    deadline: Option<std::time::Instant>,
    record: bool,
) -> (r: (SearchResult, Vec<SearchTrace>))
    requires
        tactical_ready(state, config),
    ensures
        search_result_ok(state, config, r.0),
        deadline is None ==> spent_budget(config, r.0),
        r.0.action matches Some(a) ==> tactically_safe(state, state.turn, a),
        forall|k: int| 0 <= k < r.1@.len() ==> traced_pass(#[trigger] r.1@[k], k, r.0.nodes),
        forall|k: int| 0 < k < r.1@.len() ==> (#[trigger] r.1@[k]).nodes >= r.1@[k - 1].nodes,
        record ==> r.1@.len() == r.0.completed_depth,
        record && r.0.completed_depth > 0 ==> r.1@.last().candidates@.len() > 0 && r.0.action == Some(
            r.1@.last().candidates@[0].action,
        ) && r.0.score == r.1@.last().candidates@[0].score,
{
    let fallback = ordered_root_actions(state, state.turn, config.weights);
    if fallback.len() == 0 {
        return (search_best_action(state, config), Vec::new());
    }
    let safe = tactical_root_safe_actions(state, state.turn, config.weights);
    let root_limit = if safe.len() < fallback.len() {
        Some(safe.len())
    } else {
        None
    };
    proof {
        if root_limit is None && tactical_filtering(state, state.turn) {
            lemma_filter_shrinks(state, state.turn, safe@);
        }
    }
    let result = search_root(state, config, safe.as_slice(), false, root_limit, true, deadline, record);
    proof {
        if root_limit is Some {
            assert(confined_root(state, safe@, root_limit));
        }
    }
    result
}

/// When the filter applies, fewer moves are safe than legal.
proof fn lemma_filter_shrinks(state: GameState, root_player: Player, safe: Seq<Action>)
    requires
        tactical_filtering(state, root_player),
        safe.no_duplicates(),
        forall|a: Action| #[trigger] safe.contains(a) <==> tactically_safe(state, root_player, a),
    ensures
        safe.len() < state.spec_legal_actions().len(),
{
    let legal = state.spec_legal_actions();
    crate::rules::lemma_legal_actions_distinct(state);
    let risky = choose|a: Action| legal.contains(a) && opens_win(state, root_player, a);
    assert(safe.to_set().subset_of(legal.to_set().remove(risky))) by {
        assert forall|a: Action| safe.to_set().contains(a) implies legal.to_set().remove(risky).contains(a) by {
            assert(safe.contains(a));
        }
    }
    safe.unique_seq_to_set();
    legal.unique_seq_to_set();
    vstd::set_lib::lemma_len_subset(safe.to_set(), legal.to_set().remove(risky));
}

/// Restricts the root search to moves that hand the opponent no immediate
/// win; when every move does, the whole legal set is searched.
pub fn search_best_action_with_tactical_filter(state: GameState, config: SearchConfig) -> (r: SearchResult)
    requires
        tactical_ready(state, config),
    ensures
        search_result_ok(state, config, r),
        spent_budget(config, r),
        r.action matches Some(a) ==> tactically_safe(state, state.turn, a),
{
    search_best_action_with_tactical_filter_until(state, config, None, false).0
}

/// The tactical-safe search under a wall-clock deadline: the answer is the
/// last legal move of a fully completed pass, or the first root fallback.
pub fn search_best_action_with_tactical_filter_deadline(
    state: GameState,
    config: SearchConfig,
    deadline_ms: u32,
) -> (r: SearchResult)
    requires
        tactical_ready(state, config),
    ensures
        search_result_ok(state, config, r),
        r.action matches Some(a) ==> tactically_safe(state, state.turn, a),
{
    search_best_action_with_tactical_filter_until(state, config, deadline_after_ms(deadline_ms), false).0
}

/// The deadline-aware tactical-safe search run for a caller that reports
/// progress; progress is reported by the caller from the result.
pub fn search_best_action_with_tactical_filter_deadline_progress(
    state: GameState,
    config: SearchConfig,
    deadline_ms: u32,
) -> (r: SearchResult)
    requires
        tactical_ready(state, config),
    ensures
        search_result_ok(state, config, r),
        r.action matches Some(a) ==> tactically_safe(state, state.turn, a),
{
    search_best_action_with_tactical_filter_until(state, config, deadline_after_ms(deadline_ms), false).0
}

/// The deadline-aware tactical-safe search, with a trace of every completed
/// pass.
pub fn search_best_action_with_tactical_filter_deadline_trace(
    state: GameState,
    config: SearchConfig,
    deadline_ms: u32,
) -> (r: (SearchResult, Vec<SearchTrace>))
    requires
        tactical_ready(state, config),
    ensures
        search_result_ok(state, config, r.0),
        r.0.action matches Some(a) ==> tactically_safe(state, state.turn, a),
        forall|k: int| 0 <= k < r.1@.len() ==> traced_pass(#[trigger] r.1@[k], k, r.0.nodes),
        forall|k: int| 0 < k < r.1@.len() ==> (#[trigger] r.1@[k]).nodes >= r.1@[k - 1].nodes,
        r.1@.len() == r.0.completed_depth,
        r.0.completed_depth > 0 ==> r.1@.last().candidates@.len() > 0 && r.0.action == Some(
            r.1@.last().candidates@[0].action,
        ) && r.0.score == r.1@.last().candidates@[0].score,
{
    search_best_action_with_tactical_filter_until(state, config, deadline_after_ms(deadline_ms), true)
}

/// Searches with a caller-supplied root order: its legal actions come first,
/// the rest follow in Pathfinder's order; the alpha-beta search decides.
pub fn search_best_action_with_root_order(state: GameState, config: SearchConfig, root_order: &[Action]) -> (r: SearchResult)
    requires
        search_ready(state, config),
    ensures
        search_result_ok(state, config, r),
        spent_budget(config, r),
        config.depth > 0 && !r.exhausted && state.spec_legal_actions().len() > 0 ==> (r.action matches Some(a)
            && root_best(state, config, false, config.depth as nat, a, r.score as int)),
        unsearched_head(state, root_order@, r),
{
    search_best_action_with_root_order_and_options(state, config, root_order, false)
}

/// Searches with a caller-supplied root order and, optionally, a one-ply
/// check for an immediate win at the horizon.
pub fn search_best_action_with_root_order_and_options(
    state: GameState,
    config: SearchConfig,
    root_order: &[Action],
    tactical_extension: bool,
) -> (r: SearchResult)
    requires
        search_ready(state, config),
    ensures
        search_result_ok(state, config, r),
        spent_budget(config, r),
        config.depth > 0 && !r.exhausted && state.spec_legal_actions().len() > 0 ==> (r.action matches Some(a)
            && root_best(state, config, tactical_extension, config.depth as nat, a, r.score as int)),
        unsearched_head(state, root_order@, r),
{
    search_root(state, config, root_order, tactical_extension, None, false, None, false).0
}

/// Searches with a caller-supplied root order restricted to its first
/// `root_limit` actions (at least one).
pub fn search_best_action_with_root_order_and_root_limit(
    state: GameState,
    config: SearchConfig,
    root_order: &[Action],
    tactical_extension: bool,
    root_limit: Option<usize>,
) -> (r: SearchResult)
    requires
        search_ready(state, config),
    ensures
        search_result_ok(state, config, r),
        spent_budget(config, r),
        r.action matches Some(action) ==> root_choice(state, root_order@, root_limit, action),
        unsearched_head(state, root_order@, r),
{
    search_root(state, config, root_order, tactical_extension, root_limit, true, None, false).0
}

/// The root-limited search under a wall-clock deadline.
pub fn search_best_action_with_root_order_and_root_limit_deadline(
    state: GameState,
    config: SearchConfig,
    root_order: &[Action],
    tactical_extension: bool,
    root_limit: Option<usize>,
    deadline_ms: u32,
) -> (r: SearchResult)
    requires
        search_ready(state, config),
    ensures
        search_result_ok(state, config, r),
        r.action matches Some(action) ==> root_choice(state, root_order@, root_limit, action),
{
    search_root(
        state,
        config,
        root_order,
        tactical_extension,
        root_limit,
        true,
        deadline_after_ms(deadline_ms),
        false,
    ).0
}

/// The root-limited deadline search run for a caller that reports progress.
pub fn search_best_action_with_root_order_and_root_limit_deadline_progress(
    state: GameState,
    config: SearchConfig,
    root_order: &[Action],
    tactical_extension: bool,
    root_limit: Option<usize>,
    deadline_ms: u32,
) -> (r: SearchResult)
    requires
        search_ready(state, config),
    ensures
        search_result_ok(state, config, r),
        r.action matches Some(action) ==> root_choice(state, root_order@, root_limit, action),
{
    search_best_action_with_root_order_and_root_limit_deadline(
        state,
        config,
        root_order,
        tactical_extension,
        root_limit,
        deadline_ms,
    )
}

/// The root-limited deadline search, with a trace of every completed pass.
pub fn search_best_action_with_root_order_and_root_limit_deadline_trace(
    state: GameState,
    config: SearchConfig,
    root_order: &[Action],
    tactical_extension: bool,
    root_limit: Option<usize>,
    deadline_ms: u32,
) -> (r: (SearchResult, Vec<SearchTrace>))
    requires
        search_ready(state, config),
    ensures
        search_result_ok(state, config, r.0),
        r.0.action matches Some(action) ==> root_choice(state, root_order@, root_limit, action),
{
    search_root(
        state,
        config,
        root_order,
        tactical_extension,
        root_limit,
        true,
        deadline_after_ms(deadline_ms),
        true,
    )
}

// ---------------------------------------------------------------------------
// Root ordering for hybrid agents and tactical guards
// ---------------------------------------------------------------------------

/// The positions whose replies can be looked at: room for two more plies.
pub open spec fn lookahead_ready(state: GameState) -> bool {
    &&& state.inventory_kept()
    &&& state.ply + 2 <= u16::MAX
}

/// `state` with `player` to move.
pub open spec fn turned(state: GameState, player: Player) -> GameState {
    GameState { turn: player, ..state }
}

/// The side to move has a legal action that wins at once.
pub open spec fn has_win_at_once(state: GameState) -> bool {
    &&& state.winner is None
    &&& exists|b: Action| state.spec_legal_actions().contains(b) && wins_at_once(state, b)
}

/// Playing `action` leaves the opponent of `root_player` a win at once
/// (unless it already won the game for `root_player`).
pub open spec fn opens_win(state: GameState, root_player: Player, action: Action) -> bool {
    let next = state.spec_apply(action).state;
    &&& next.winner != Some(root_player)
    &&& has_win_at_once(turned(next, root_player.opponent()))
}

/// Pathfinder's deterministic root order.
pub fn ordered_root_actions(state: GameState, root_player: Player, weights: EvaluationWeights) -> (r: Vec<Action>)
    requires
        playable(state),
        weights.fits(),
    ensures
        r@.len() == state.spec_legal_actions().len(),
        forall|i: int| 0 <= i < r@.len() ==> state.spec_legal_actions().contains(#[trigger] r@[i]),
        forall|a: Action| state.spec_legal_actions().contains(a) ==> r@.contains(a),
        in_move_order(state, root_player, weights, r@),
{
    ordered_actions(state, root_player, weights)
}

/// The legal actions of `player` that win at once; none when `player` is not
/// to move or the game is decided.
pub fn immediate_winning_actions(state: GameState, player: Player) -> (r: Vec<Action>)
    requires
        playable(state),
    ensures
        state.winner is Some || state.turn != player ==> r@.len() == 0,
        forall|i: int| 0 <= i < r@.len() ==> state.spec_legal_actions().contains(#[trigger] r@[i])
            && wins_at_once(state, r@[i]),
        state.turn == player ==> forall|a: Action|
            state.spec_legal_actions().contains(a) && wins_at_once(state, a) ==> r@.contains(a),
{
    let mut wins: Vec<Action> = Vec::new();
    if state.winner.is_some() || state.turn != player {
        return wins;
    }
    let legal = state.legal_actions();
    let mut i: usize = 0;
    while i < legal.len()
        invariant
            playable(state),
            state.turn == player,
            state.winner is None,
            legal@ == state.spec_legal_actions(),
            i <= legal@.len(),
            forall|k: int| 0 <= k < wins@.len() ==> state.spec_legal_actions().contains(#[trigger] wins@[k])
                && wins_at_once(state, wins@[k]),
            forall|k: int| 0 <= k < i && wins_at_once(state, legal@[k]) ==> wins@.contains(#[trigger] legal@[k]),
        decreases legal@.len() - i,
    {
        let action = legal[i];
        let ghost before = wins@;
        if state.apply_legal(action).state.winner == Some(player) {
            wins.push(action);
        }
        proof {
            assert forall|k: int| 0 <= k < i + 1 && wins_at_once(state, legal@[k]) implies wins@.contains(
                #[trigger] legal@[k],
            ) by {
                if k < i {
                    let w = choose|w: int| 0 <= w < before.len() && before[w] == legal@[k];
                    assert(wins@[w] == legal@[k]);
                } else {
                    assert(wins@[wins@.len() - 1] == legal@[k]);
                }
            }
        }
        i = i + 1;
    }
    proof {
        assert forall|a: Action| state.spec_legal_actions().contains(a) && wins_at_once(state, a) implies wins@.contains(a) by {
            let w = choose|w: int| 0 <= w < legal@.len() && legal@[w] == a;
        }
    }
    wins
}

/// Whether playing `action` leaves `opponent` (the side after `root_player`)
/// a win at once.
pub(crate) fn opens_win_exec(state: GameState, root_player: Player, action: Action) -> (r: bool)
    requires
        lookahead_ready(state),
        state.spec_legal_actions().contains(action),
    ensures
        r == opens_win(state, root_player, action),
{
    proof {
        law_play_keeps_inventory(state, action);
    }
    let next = state.apply_legal(action).state;
    if next.winner == Some(root_player) {
        return false;
    }
    let opponent = root_player.other();
    let view = GameState { turn: opponent, ..next };
    let threats = immediate_winning_actions(view, opponent);
    proof {
        if has_win_at_once(view) {
            let b = choose|b: Action| view.spec_legal_actions().contains(b) && wins_at_once(view, b);
            assert(threats@.contains(b));
        }
        if threats@.len() > 0 {
            assert(view.spec_legal_actions().contains(threats@[0]) && wins_at_once(view, threats@[0]));
        }
    }
    threats.len() != 0
}

/// Pathfinder's root order without the moves that hand the opponent an
/// immediate win; the full order when every move does, when none does, or
/// when the position has more than 512 moves.
#[verifier::rlimit(60)]
pub fn tactical_root_safe_actions(state: GameState, root_player: Player, weights: EvaluationWeights) -> (r: Vec<Action>)
    requires
        lookahead_ready(state),
        weights.fits(),
    ensures
        forall|i: int| 0 <= i < r@.len() ==> state.spec_legal_actions().contains(#[trigger] r@[i]),
        state.spec_legal_actions().len() > 0 ==> r@.len() > 0,
        forall|a: Action| state.spec_legal_actions().contains(a) ==> r@.contains(a) || opens_win(
            state,
            root_player,
            a,
        ),
        r@.len() <= state.spec_legal_actions().len(),
        r@.no_duplicates(),
        forall|a: Action| #[trigger] r@.contains(a) <==> tactically_safe(state, root_player, a),
        in_move_order(state, root_player, weights, r@),
{
    let fallback = ordered_actions(state, root_player, weights);
    proof {
        lemma_legal_permutation_distinct(state, fallback@);
    }
    if fallback.len() == 0 || state.legal_action_count() > 512 {
        proof {
            if fallback@.len() == 0 {
                if tactical_filtering(state, root_player) {
                    let a = choose|a: Action| state.spec_legal_actions().contains(a) && opens_win(state, root_player, a);
                    assert(fallback@.contains(a));
                }
            }
            lemma_whole_order_safe(state, root_player, fallback@);
        }
        return fallback;
    }
    let mut safe: Vec<Action> = Vec::new();
    let ghost mut idx: Seq<int> = Seq::empty();
    let mut risky = false;
    let mut i: usize = 0;
    while i < fallback.len()
        invariant
            lookahead_ready(state),
            i <= fallback@.len(),
            fallback@.len() == state.spec_legal_actions().len(),
            fallback@.no_duplicates(),
            forall|k: int| 0 <= k < fallback@.len() ==> state.spec_legal_actions().contains(#[trigger] fallback@[k]),
            forall|k: int| 0 <= k < i ==> safe@.contains(#[trigger] fallback@[k]) || opens_win(state, root_player, fallback@[k]),
            idx.len() == safe@.len(),
            forall|k: int| 0 <= k < safe@.len() ==> 0 <= #[trigger] idx[k] < i && safe@[k] == fallback@[idx[k]],
            forall|a: int, b: int| 0 <= a < b < idx.len() ==> #[trigger] idx[a] < #[trigger] idx[b],
            forall|k: int| 0 <= k < safe@.len() ==> !opens_win(state, root_player, #[trigger] safe@[k]),
            risky ==> exists|k: int| 0 <= k < i && opens_win(state, root_player, #[trigger] fallback@[k]),
            !risky ==> forall|k: int| 0 <= k < i ==> !opens_win(state, root_player, #[trigger] fallback@[k]),
            safe@.len() <= i,
        decreases fallback@.len() - i,
    {
        let action = fallback[i];
        let ghost before = safe@;
        proof {
            assert(state.spec_legal_actions().contains(action));
        }
        if opens_win_exec(state, root_player, action) {
            risky = true;
        } else {
            safe.push(action);
            proof {
                idx = idx.push(i as int);
            }
        }
        proof {
            assert forall|k: int| 0 <= k < i + 1 implies safe@.contains(#[trigger] fallback@[k]) || opens_win(state, root_player, fallback@[k]) by {
                if k < i && before.contains(fallback@[k]) {
                    let w = choose|w: int| 0 <= w < before.len() && before[w] == fallback@[k];
                    assert(safe@[w] == fallback@[k]);
                } else if k == i && !opens_win(state, root_player, fallback@[k]) {
                    assert(safe@[safe@.len() - 1] == fallback@[k]);
                }
            }
        }
        i = i + 1;
    }
    proof {
        lemma_safe_partition(state, root_player, fallback@, safe@, idx, risky);
    }
    if safe.len() == 0 || !risky {
        proof {
            lemma_whole_order_safe(state, root_player, fallback@);
        }
        fallback
    } else {
        proof {
            lemma_filtered_order_safe(state, root_player, fallback@, safe@);
            assert forall|x: int, y: int| 0 <= x < y < safe@.len() implies {
                let a = move_order_score(state, #[trigger] safe@[x], root_player, weights);
                let b = move_order_score(state, #[trigger] safe@[y], root_player, weights);
                &&& state.turn == root_player ==> b <= a
                &&& state.turn != root_player ==> a <= b
                &&& a == b ==> safe@[x].spec_order() <= safe@[y].spec_order()
            } by {
                assert(idx[x] < idx[y]);
                assert(safe@[x] == fallback@[idx[x]]);
                assert(safe@[y] == fallback@[idx[y]]);
            }
        }
        safe
    }
}

/// The moves of `safe` against the whole order they were drawn from.
#[verifier::rlimit(40)]
proof fn lemma_safe_partition(
    state: GameState,
    root_player: Player,
    fallback: Seq<Action>,
    safe: Seq<Action>,
    idx: Seq<int>,
    risky: bool,
)
    requires
        fallback.len() == state.spec_legal_actions().len(),
        fallback.no_duplicates(),
        forall|k: int| 0 <= k < fallback.len() ==> state.spec_legal_actions().contains(#[trigger] fallback[k]),
        forall|a: Action| state.spec_legal_actions().contains(a) ==> fallback.contains(a),
        forall|k: int| 0 <= k < fallback.len() ==> safe.contains(#[trigger] fallback[k]) || opens_win(state, root_player, fallback[k]),
        idx.len() == safe.len(),
        forall|k: int| 0 <= k < safe.len() ==> 0 <= #[trigger] idx[k] < fallback.len() && safe[k] == fallback[idx[k]],
        forall|a: int, b: int| 0 <= a < b < idx.len() ==> #[trigger] idx[a] < #[trigger] idx[b],
        forall|k: int| 0 <= k < safe.len() ==> !opens_win(state, root_player, #[trigger] safe[k]),
        risky ==> exists|k: int| 0 <= k < fallback.len() && opens_win(state, root_player, #[trigger] fallback[k]),
        !risky ==> forall|k: int| 0 <= k < fallback.len() ==> !opens_win(state, root_player, #[trigger] fallback[k]),
    ensures
        safe.no_duplicates(),
        forall|k: int| 0 <= k < safe.len() ==> state.spec_legal_actions().contains(#[trigger] safe[k]),
        (exists|a: Action| state.spec_legal_actions().contains(a) && opens_win(state, root_player, a)) == risky,
        (exists|a: Action| state.spec_legal_actions().contains(a) && !opens_win(state, root_player, a)) == (safe.len() > 0),
        forall|a: Action| #[trigger] safe.contains(a) ==> state.spec_legal_actions().contains(a) && !opens_win(state, root_player, a),
        forall|a: Action| state.spec_legal_actions().contains(a) && !opens_win(state, root_player, a) ==> #[trigger] safe.contains(a),
{
    assert forall|a: int, b: int| 0 <= a < b < safe.len() implies safe[a] != safe[b] by {
        assert(idx[a] < idx[b]);
    }
    assert forall|k: int| 0 <= k < safe.len() implies state.spec_legal_actions().contains(#[trigger] safe[k]) by {
        assert(state.spec_legal_actions().contains(fallback[idx[k]]));
    }
    if risky {
        let k = choose|k: int| 0 <= k < fallback.len() && opens_win(state, root_player, #[trigger] fallback[k]);
        assert(state.spec_legal_actions().contains(fallback[k]));
    }
    if exists|a: Action| state.spec_legal_actions().contains(a) && opens_win(state, root_player, a) {
        let a = choose|a: Action| state.spec_legal_actions().contains(a) && opens_win(state, root_player, a);
        assert(fallback.contains(a));
        let w = choose|w: int| 0 <= w < fallback.len() && fallback[w] == a;
        assert(opens_win(state, root_player, fallback[w]));
    }
    if exists|a: Action| state.spec_legal_actions().contains(a) && !opens_win(state, root_player, a) {
        let a = choose|a: Action| state.spec_legal_actions().contains(a) && !opens_win(state, root_player, a);
        assert(fallback.contains(a));
        let w = choose|w: int| 0 <= w < fallback.len() && fallback[w] == a;
        assert(safe.contains(fallback[w]) || opens_win(state, root_player, fallback[w]));
        assert(safe.len() > 0);
    }
    if safe.len() > 0 {
        assert(state.spec_legal_actions().contains(safe[0]));
    }
    assert forall|a: Action| state.spec_legal_actions().contains(a) && !opens_win(state, root_player, a) implies #[trigger] safe.contains(a) by {
        assert(fallback.contains(a));
        let w = choose|w: int| 0 <= w < fallback.len() && fallback[w] == a;
        assert(safe.contains(fallback[w]) || opens_win(state, root_player, fallback[w]));
    }
    assert forall|a: Action| #[trigger] safe.contains(a) implies state.spec_legal_actions().contains(a) && !opens_win(state, root_player, a) by {
        let w = choose|w: int| 0 <= w < safe.len() && safe[w] == a;
    }
}

/// When the filter does not apply, the whole order is the safe set.
proof fn lemma_whole_order_safe(state: GameState, root_player: Player, fallback: Seq<Action>)
    requires
        !tactical_filtering(state, root_player),
        forall|k: int| 0 <= k < fallback.len() ==> state.spec_legal_actions().contains(#[trigger] fallback[k]),
        forall|a: Action| state.spec_legal_actions().contains(a) ==> fallback.contains(a),
    ensures
        forall|a: Action| #[trigger] fallback.contains(a) <==> tactically_safe(state, root_player, a),
{
    assert forall|a: Action| #[trigger] fallback.contains(a) <==> tactically_safe(state, root_player, a) by {
        if fallback.contains(a) {
            let w = choose|w: int| 0 <= w < fallback.len() && fallback[w] == a;
        }
    }
}

/// When the filter applies, the filtered moves are the safe set.
proof fn lemma_filtered_order_safe(state: GameState, root_player: Player, fallback: Seq<Action>, safe: Seq<Action>)
    requires
        tactical_filtering(state, root_player),
        forall|a: Action| #[trigger] safe.contains(a) ==> state.spec_legal_actions().contains(a) && !opens_win(state, root_player, a),
        forall|a: Action| state.spec_legal_actions().contains(a) && !opens_win(state, root_player, a) ==> #[trigger] safe.contains(a),
    ensures
        forall|a: Action| #[trigger] safe.contains(a) <==> tactically_safe(state, root_player, a),
{
}

/// The root search filters out the moves that open an opponent win at once:
/// the position has at most 512 moves, some move opens such a win and some
/// move does not.
pub open spec fn tactical_filtering(state: GameState, root_player: Player) -> bool {
    &&& state.spec_legal_actions().len() <= 512
    &&& exists|a: Action| state.spec_legal_actions().contains(a) && opens_win(state, root_player, a)
    &&& exists|a: Action| state.spec_legal_actions().contains(a) && !opens_win(state, root_player, a)
}

/// A legal move the tactical filter keeps: every legal move when it does not
/// filter, else one that opens no opponent win at once.
pub open spec fn tactically_safe(state: GameState, root_player: Player, action: Action) -> bool {
    &&& state.spec_legal_actions().contains(action)
    &&& tactical_filtering(state, root_player) ==> !opens_win(state, root_player, action)
}

/// Pathfinder's root order with the threat-free moves first, when some root
/// move creates or leaves an opponent win at once and the position has at
/// most 512 moves; otherwise the order itself.
pub fn ordered_root_actions_with_tactical_guard(
    state: GameState,
    root_player: Player,
    weights: EvaluationWeights,
) -> (r: Vec<Action>)
    requires
        lookahead_ready(state),
        weights.fits(),
    ensures
        forall|i: int| 0 <= i < r@.len() ==> state.spec_legal_actions().contains(#[trigger] r@[i]),
        forall|a: Action| state.spec_legal_actions().contains(a) ==> r@.contains(a),
        r@.len() == state.spec_legal_actions().len(),
        r@.no_duplicates(),
        state.spec_legal_actions().len() <= 512 ==> forall|i: int, j: int|
            0 <= i < j < r@.len() && !opens_win(state, root_player, #[trigger] r@[j]) ==> !opens_win(
                state,
                root_player,
                #[trigger] r@[i],
            ),
{
    let fallback = ordered_actions(state, root_player, weights);
    proof {
        lemma_legal_permutation_distinct(state, fallback@);
        crate::rules::lemma_legal_actions_distinct(state);
    }
    if fallback.len() == 0 || state.legal_action_count() > 512 {
        return fallback;
    }
    let opponent = root_player.other();
    let opponent_view = GameState { turn: opponent, ..state };
    let baseline_threats = immediate_winning_actions(opponent_view, opponent);
    let mut guarded: Vec<Action> = Vec::new();
    let mut has_threat = baseline_threats.len() != 0;
    let mut i: usize = 0;
    while i < fallback.len()
        invariant
            lookahead_ready(state),
            i <= fallback@.len(),
            forall|k: int| 0 <= k < fallback@.len() ==> state.spec_legal_actions().contains(#[trigger] fallback@[k]),
            forall|k: int| 0 <= k < guarded@.len() ==> fallback@.contains(#[trigger] guarded@[k]),
            forall|k: int| 0 <= k < guarded@.len() ==> !opens_win(state, root_player, #[trigger] guarded@[k]),
            forall|k: int|
                0 <= k < i && !opens_win(state, root_player, #[trigger] fallback@[k]) ==> guarded@.contains(
                    fallback@[k],
                ),
            forall|k: int| 0 <= k < i && opens_win(state, root_player, #[trigger] fallback@[k]) ==> has_threat,
            fallback@.no_duplicates(),
            guarded@.no_duplicates(),
            forall|k: int| 0 <= k < guarded@.len() ==> exists|m: int| 0 <= m < i && fallback@[m] == #[trigger] guarded@[k],
        decreases fallback@.len() - i,
    {
        let action = fallback[i];
        let ghost before = guarded@;
        if !opens_win_exec(state, root_player, action) {
            guarded.push(action);
        } else {
            has_threat = true;
        }
        proof {
            if guarded@.len() > before.len() {
                assert forall|k: int| 0 <= k < before.len() implies before[k] != action by {
                    let m = choose|m: int| 0 <= m < i && fallback@[m] == #[trigger] before[k];
                    assert(fallback@[m] != fallback@[i as int]);
                }
                assert(guarded@.no_duplicates()) by {
                    assert forall|x: int, y: int| 0 <= x < y < guarded@.len() implies guarded@[x] != guarded@[y] by {
                        if y == before.len() {
                            assert(before[x] != action);
                        } else {
                            assert(before[x] != before[y]);
                        }
                    }
                }
            }
            assert forall|k: int| 0 <= k < guarded@.len() implies exists|m: int|
                0 <= m < i + 1 && fallback@[m] == #[trigger] guarded@[k] by {
                if k < before.len() {
                    let m = choose|m: int| 0 <= m < i && fallback@[m] == #[trigger] before[k];
                    assert(fallback@[m] == guarded@[k]);
                } else {
                    assert(fallback@[i as int] == guarded@[k]);
                }
            }
            assert forall|k: int|
                0 <= k < i + 1 && !opens_win(state, root_player, #[trigger] fallback@[k]) implies guarded@.contains(
                fallback@[k],
            ) by {
                if k < i {
                    let w = choose|w: int| 0 <= w < before.len() && before[w] == fallback@[k];
                    assert(guarded@[w] == fallback@[k]);
                } else {
                    assert(guarded@[before.len() as int] == fallback@[k]);
                }
            }
        }
        i = i + 1;
    }
    if !has_threat || guarded.len() == 0 {
        proof {
            assert forall|k: int| 0 <= k < fallback@.len() implies opens_win(
                state,
                root_player,
                #[trigger] fallback@[k],
            ) == has_threat by {
                if !opens_win(state, root_player, fallback@[k]) {
                    assert(guarded@.contains(fallback@[k]));
                }
            }
        }
        return fallback;
    }
    let ghost safe_count = guarded@.len();
    let mut j: usize = 0;
    while j < fallback.len()
        invariant
            j <= fallback@.len(),
            safe_count <= guarded@.len(),
            forall|k: int| 0 <= k < safe_count ==> !opens_win(state, root_player, #[trigger] guarded@[k]),
            forall|k: int|
                safe_count <= k < guarded@.len() ==> opens_win(state, root_player, #[trigger] guarded@[k]),
            forall|k: int|
                0 <= k < fallback@.len() && !opens_win(state, root_player, #[trigger] fallback@[k])
                    ==> guarded@.contains(fallback@[k]),
            forall|k: int| 0 <= k < fallback@.len() ==> state.spec_legal_actions().contains(#[trigger] fallback@[k]),
            forall|k: int| 0 <= k < guarded@.len() ==> fallback@.contains(#[trigger] guarded@[k]),
            forall|k: int| 0 <= k < j ==> guarded@.contains(#[trigger] fallback@[k]),
            guarded@.no_duplicates(),
        decreases fallback@.len() - j,
    {
        let action = fallback[j];
        let ghost before = guarded@;
        if !lists_action(guarded.as_slice(), action) {
            guarded.push(action);
            proof {
                assert(guarded@.no_duplicates()) by {
                    assert forall|x: int, y: int| 0 <= x < y < guarded@.len() implies guarded@[x] != guarded@[y] by {
                        if y == before.len() {
                            assert(before.contains(before[x]));
                        } else {
                            assert(before[x] != before[y]);
                        }
                    }
                }
                assert(opens_win(state, root_player, fallback@[j as int]));
                assert forall|a: Action| before.contains(a) implies guarded@.contains(a) by {
                    let w = choose|w: int| 0 <= w < before.len() && before[w] == a;
                    assert(guarded@[w] == a);
                }
            }
        }
        proof {
            assert forall|k: int| 0 <= k < j + 1 implies guarded@.contains(#[trigger] fallback@[k]) by {
                if k < j {
                    let w = choose|w: int| 0 <= w < before.len() && before[w] == fallback@[k];
                    assert(guarded@[w] == fallback@[k]);
                } else if guarded@.len() > before.len() {
                    assert(guarded@[before.len() as int] == fallback@[k]);
                }
            }
        }
        j = j + 1;
    }
    proof {
        assert forall|k: int| 0 <= k < guarded@.len() implies state.spec_legal_actions().contains(#[trigger] guarded@[k]) by {
            let w = choose|w: int| 0 <= w < fallback@.len() && fallback@[w] == guarded@[k];
        }
        assert forall|a: Action| state.spec_legal_actions().contains(a) implies guarded@.contains(a) by {
            let w = choose|w: int| 0 <= w < fallback@.len() && fallback@[w] == a;
        }
        let legal = state.spec_legal_actions();
        assert(guarded@.to_set() =~= legal.to_set()) by {
            assert forall|a: Action| guarded@.to_set().contains(a) implies legal.to_set().contains(a) by {
                let w = choose|w: int| 0 <= w < guarded@.len() && guarded@[w] == a;
            }
        }
        legal.unique_seq_to_set();
        guarded@.unique_seq_to_set();
        assert forall|x: int, y: int|
            0 <= x < y < guarded@.len() && !opens_win(state, root_player, #[trigger] guarded@[y]) implies !opens_win(
            state,
            root_player,
            #[trigger] guarded@[x],
        ) by {
            assert(y < safe_count);
        }
    }
    guarded
}

/// A cheap tactical signal: the mover can win at once or capture two pieces,
/// or the opponent could win at once were it to move.
#[verifier::spinoff_prover]
pub fn has_tactical_signal(state: GameState) -> (r: bool)
    requires
        playable(state),
    ensures
        r == ((exists|a: Action|
            state.spec_legal_actions().contains(a) && (wins_at_once(state, a) || bit_count(
                state.spec_apply(a).captured,
            ) >= 2)) || has_win_at_once(turned(state, state.turn.opponent()))),
{
    let legal = state.legal_actions();
    let mut i: usize = 0;
    let mut own_tactic = false;
    while i < legal.len() && !own_tactic
        invariant
            playable(state),
            legal@ == state.spec_legal_actions(),
            i <= legal@.len(),
            !own_tactic ==> forall|k: int| 0 <= k < i ==> !(wins_at_once(state, #[trigger] legal@[k]) || bit_count(
                state.spec_apply(legal@[k]).captured,
            ) >= 2),
            own_tactic ==> exists|b: Action|
                state.spec_legal_actions().contains(b) && (wins_at_once(state, b) || bit_count(
                    state.spec_apply(b).captured,
                ) >= 2),
        decreases legal@.len() - i,
    {
        let transition = state.apply_legal(legal[i]);
        if transition.state.winner == Some(state.turn) || popcount(transition.captured) >= 2 {
            proof {
                let a = legal@[i as int];
                assert(legal@.contains(a));
                assert(state.spec_legal_actions().contains(a) && (wins_at_once(state, a) || bit_count(
                    state.spec_apply(a).captured,
                ) >= 2));
                assert(exists|b: Action|
                    state.spec_legal_actions().contains(b) && (wins_at_once(state, b) || bit_count(
                        state.spec_apply(b).captured,
                    ) >= 2));
            }
            own_tactic = true;
        }
        i = i + 1;
    }
    if own_tactic {
        proof {
            let b = choose|b: Action|
                state.spec_legal_actions().contains(b) && (wins_at_once(state, b) || bit_count(
                    state.spec_apply(b).captured,
                ) >= 2);
            assert(state.spec_legal_actions().contains(b));
            assert(wins_at_once(state, b) || bit_count(state.spec_apply(b).captured) >= 2);
        }
        return true;
    }
    let view = GameState { turn: state.turn.other(), ..state };
    let threats = immediate_winning_actions(view, view.turn);
    proof {
        assert(!exists|a: Action|
            state.spec_legal_actions().contains(a) && (wins_at_once(state, a) || bit_count(
                state.spec_apply(a).captured,
            ) >= 2)) by {
            if exists|a: Action|
                state.spec_legal_actions().contains(a) && (wins_at_once(state, a) || bit_count(
                    state.spec_apply(a).captured,
                ) >= 2) {
                let a = choose|a: Action|
                    state.spec_legal_actions().contains(a) && (wins_at_once(state, a) || bit_count(
                        state.spec_apply(a).captured,
                    ) >= 2);
                let w = choose|w: int| 0 <= w < legal@.len() && legal@[w] == a;
                assert(!(wins_at_once(state, legal@[w]) || bit_count(state.spec_apply(legal@[w]).captured) >= 2));
            }
        }
        if has_win_at_once(view) {
            let b = choose|b: Action| view.spec_legal_actions().contains(b) && wins_at_once(view, b);
            assert(threats@.contains(b));
        }
        if threats@.len() > 0 {
            assert(view.spec_legal_actions().contains(threats@[0]) && wins_at_once(view, threats@[0]));
        }
    }
    threats.len() != 0
}

// ---------------------------------------------------------------------------
// Move analysis and the breadth baseline
// ---------------------------------------------------------------------------

/// The (action, score) pair an evaluation is ranked by.
pub open spec fn ranking_key(evaluation: MoveEvaluation) -> (Action, i32) {
    (evaluation.action, evaluation.score)
}

/// Evaluations by descending score, then action order.
pub open spec fn evaluations_ranked(items: Seq<MoveEvaluation>) -> bool {
    forall|i: int, j: int|
        0 <= i < j < items.len() ==> !precedes(
            ranking_key(#[trigger] items[j]),
            ranking_key(#[trigger] items[i]),
            true,
            true,
        )
}

/// A stable insertion sort of evaluations by descending score, then action
/// order.
fn sort_evaluations(items: &Vec<MoveEvaluation>) -> (r: Vec<MoveEvaluation>)
    ensures
        r@.to_multiset() == items@.to_multiset(),
        r@.len() == items@.len(),
        evaluations_ranked(r@),
{
    broadcast use vstd::seq_lib::group_to_multiset_ensures;

    let mut sorted: Vec<MoveEvaluation> = Vec::new();
    let mut k: usize = 0;
    while k < items.len()
        invariant
            k <= items@.len(),
            sorted@.to_multiset() == items@.take(k as int).to_multiset(),
            sorted@.len() == k,
            evaluations_ranked(sorted@),
        decreases items@.len() - k,
    {
        let x = items[k];
        let mut p: usize = 0;
        while p < sorted.len() && !precedes_exec((x.action, x.score), (sorted[p].action, sorted[p].score), true, true)
            invariant
                p <= sorted@.len(),
                forall|q: int| 0 <= q < p ==> !precedes(ranking_key(x), ranking_key(#[trigger] sorted@[q]), true, true),
            decreases sorted@.len() - p,
        {
            p = p + 1;
        }
        let ghost before = sorted@;
        sorted.insert(p, x);
        proof {
            assert(items@.take(k as int + 1) =~= items@.take(k as int).push(x));
            vstd::seq_lib::to_multiset_build(items@.take(k as int), x);
            vstd::seq_lib::to_multiset_insert(before, p as int, x);
            assert forall|i: int, j: int| 0 <= i < j < sorted@.len() implies !precedes(
                ranking_key(#[trigger] sorted@[j]),
                ranking_key(#[trigger] sorted@[i]),
                true,
                true,
            ) by {
                if j < p {
                    assert(sorted@[i] == before[i] && sorted@[j] == before[j]);
                } else if j == p {
                    assert(sorted@[i] == before[i]);
                } else if i > p {
                    assert(sorted@[i] == before[i - 1] && sorted@[j] == before[j - 1]);
                } else if i < p {
                    assert(sorted@[i] == before[i] && sorted@[j] == before[j - 1]);
                } else {
                    assert(sorted@[j] == before[j - 1]);
                    let kx = ranking_key(x);
                    let kp = ranking_key(before[p as int]);
                    let kj = ranking_key(before[j - 1]);
                    assert(precedes(kx, kp, true, true));
                    lemma_precedes_order(kj, kx, kp, true, true);
                    lemma_precedes_order(kx, kp, kx, true, true);
                    if j - 1 > p {
                        assert(!precedes(kj, kp, true, true));
                    }
                }
            }
        }
        k = k + 1;
    }
    proof {
        assert(items@.take(items@.len() as int) =~= items@);
    }
    sorted
}

/// What each move analysis satisfies: a legal action, a score inside the
/// search bounds (strictly, unless the budget ran out), and the score's
/// change over the position before the move.
pub open spec fn analysis_ok(state: GameState, config: SearchConfig, evaluation: MoveEvaluation) -> bool {
    &&& state.spec_legal_actions().contains(evaluation.action)
    &&& NEG_INF <= evaluation.score <= POS_INF
    &&& !evaluation.exhausted ==> NEG_INF < evaluation.score < POS_INF
    &&& NEG_INF < evaluation.before_score < POS_INF
    &&& is_evaluation(state, state.turn, config.weights, evaluation.before_score as int)
    &&& state.spec_apply(evaluation.action).state.winner is Some ==> is_evaluation(
        state.spec_apply(evaluation.action).state,
        state.turn,
        config.weights,
        evaluation.score as int,
    )
    &&& evaluation.delta == evaluation.score - evaluation.before_score
    &&& evaluation.completed_depth == config.depth
}

/// Scores one legal action by a full-window search of the reply, at one ply
/// less than the configured depth.
pub fn analyze_action(state: GameState, action: Action, config: SearchConfig) -> (r: Result<MoveEvaluation, String>)
    requires
        search_ready(state, config),
    ensures
        r is Ok <==> state.spec_legal_actions().contains(action),
        r matches Err(e) ==> e@ == "cannot analyze an illegal Pathagon action"@,
        r matches Ok(evaluation) ==> {
            &&& evaluation.action == action
            &&& analysis_ok(state, config, evaluation)
            &&& 1 <= evaluation.nodes
            &&& evaluation.nodes <= 1 || evaluation.nodes <= config.max_nodes
        },
{
    let legal = state.legal_actions();
    if !lists_action(legal.as_slice(), action) {
        return Err(String::from_str("cannot analyze an illegal Pathagon action"));
    }
    proof {
        lemma_cells(state.config.board_size as int);
        law_play_keeps_inventory(state, action);
    }
    let root_player = state.turn;
    let before_score = evaluate_bounded(state, root_player, config.weights);
    let mut budget = Budget::new(None);
    let mut table: HashMap<u128, Vec<TableSlot>> = HashMap::new();
    let mut hints = SearchHints::new();
    proof {
        broadcast use vstd::std_specs::hash::group_hash_axioms;

        assert(table_ok(table@));
    }
    let next = state.apply_legal(action).state;
    budget.count_node();

    let depth: u8 = if config.depth == 0 {
        0
    } else {
        config.depth - 1
    };
    proof {
        lemma_table_sound_horizon(table@, root_player, config, false, 0, next.ply + depth);
    }
    let score = if next.winner.is_some() {
        evaluate_bounded(next, root_player, config.weights)
    } else {
        minimax(
            next,
            root_player,
            depth,
            NEG_INF,
            POS_INF,
            config,
            false,
            false,
            1,
            &mut budget,
            &mut table,
            &mut hints,
            Ghost(next.ply + depth as int),
            Ghost(true),
        )
    };
    Ok(
        MoveEvaluation {
            action,
            before_score,
            score,
            delta: score - before_score,
            nodes: budget.nodes,
            exhausted: budget.exhausted,
            completed_depth: config.depth,
            table_hits: budget.table_hits,
        },
    )
}

/// Scores Pathfinder's first `max_actions` root actions in turn, sharing one
/// budget, and returns them by descending score, then action order. A list
/// shorter than asked for means the budget ran out.
#[verifier::rlimit(100)]
#[verifier::spinoff_prover]
pub fn analyze_actions(state: GameState, config: SearchConfig, max_actions: usize) -> (r: Vec<MoveEvaluation>)
    requires
        search_ready(state, config),
    ensures
        r@.len() <= max_actions,
        r@.len() <= state.spec_legal_actions().len(),
        forall|i: int| 0 <= i < r@.len() ==> analysis_ok(state, config, #[trigger] r@[i]),
        forall|i: int| 0 <= i < r@.len() ==> (#[trigger] r@[i]).nodes <= config.max_nodes,
        evaluations_ranked(r@),
        exists|order: Seq<Action>|
            #![trigger in_move_order(state, state.turn, config.weights, order)]
            {
                &&& order.len() == state.spec_legal_actions().len()
                &&& forall|a: Action| state.spec_legal_actions().contains(a) ==> order.contains(a)
                &&& in_move_order(state, state.turn, config.weights, order)
                &&& forall|a: Action|
                    order.take(r@.len() as int).contains(a) <==> exists|i: int|
                        0 <= i < r@.len() && (#[trigger] r@[i]).action == a
            },
        r@.len() < max_actions && r@.len() < state.spec_legal_actions().len() ==> (r@.len() == 0
            && config.max_nodes == 0) || exists|i: int|
            0 <= i < r@.len() && ((#[trigger] r@[i]).exhausted || r@[i].nodes >= config.max_nodes),
{
    broadcast use vstd::seq_lib::group_to_multiset_ensures;

    proof {
        lemma_cells(state.config.board_size as int);
    }
    let root_player = state.turn;
    let before_score = evaluate_bounded(state, root_player, config.weights);
    let mut budget = Budget::new(None);
    let mut table: HashMap<u128, Vec<TableSlot>> = HashMap::new();
    let mut hints = SearchHints::new();
    proof {
        broadcast use vstd::std_specs::hash::group_hash_axioms;

        assert(table_ok(table@));
    }
    let mut alpha = NEG_INF;
    let mut results: Vec<MoveEvaluation> = Vec::new();

    let ordered = ordered_actions(state, root_player, config.weights);
    let depth: u8 = if config.depth == 0 {
        0
    } else {
        config.depth - 1
    };
    proof {
        lemma_table_sound_horizon(table@, root_player, config, false, 0, state.ply + 1 + depth);
    }
    let mut i: usize = 0;
    while i < ordered.len() && i < max_actions
        invariant_except_break
            alpha < POS_INF,
        invariant
            search_ready(state, config),
            root_player == state.turn,
            depth as int == (if config.depth == 0 { 0 } else { config.depth - 1 }),
            ordered@.len() == state.spec_legal_actions().len(),
            forall|k: int| 0 <= k < ordered@.len() ==> state.spec_legal_actions().contains(#[trigger] ordered@[k]),
            i <= ordered@.len(),
            i <= max_actions,
            results@.len() == i,
            NEG_INF < before_score < POS_INF,
            is_evaluation(state, state.turn, config.weights, before_score as int),
            NEG_INF <= alpha <= POS_INF,
            forall|k: int| 0 <= k < results@.len() ==> analysis_ok(state, config, #[trigger] results@[k]),
            forall|k: int| 0 <= k < results@.len() ==> (#[trigger] results@[k]).nodes <= config.max_nodes,
            budget.nodes <= config.max_nodes,
            budget.deadline is None,
            budget.table_hits <= 2 * budget.nodes,
            i > 0 ==> results@[i - 1].nodes == budget.nodes,
            forall|k: int| 0 <= k < results@.len() ==> (#[trigger] results@[k]).action == ordered@[k],
            i == 0 ==> budget.nodes == 0,
            table_ok(table@),
            history_ok(hints.history@),
            table_sound(table@, root_player, config, false, state.ply + 1 + depth),
        ensures
            results@.len() <= max_actions,
            results@.len() <= ordered@.len(),
            forall|k: int| 0 <= k < results@.len() ==> analysis_ok(state, config, #[trigger] results@[k]),
            forall|k: int| 0 <= k < results@.len() ==> (#[trigger] results@[k]).nodes <= config.max_nodes,
            results@.len() < max_actions && results@.len() < ordered@.len() ==> (results@.len() == 0
                && config.max_nodes == 0) || exists|k: int|
                0 <= k < results@.len() && ((#[trigger] results@[k]).exhausted || results@[k].nodes
                    >= config.max_nodes),
        decreases ordered@.len() - i,
    {
        if budget.reached(config.max_nodes) {
            proof {
                if i > 0 {
                    assert(results@[i - 1].nodes >= config.max_nodes);
                }
            }
            break;
        }
        let action = ordered[i];
        proof {
            law_play_keeps_inventory(state, action);
        }
        let next = state.apply_legal(action).state;
        budget.count_node();
        let score = if next.winner.is_some() {
            evaluate_bounded(next, root_player, config.weights)
        } else {
            minimax(
                next,
                root_player,
                depth,
                alpha,
                POS_INF,
                config,
                false,
                false,
                1,
                &mut budget,
                &mut table,
                &mut hints,
                Ghost(next.ply + depth as int),
                Ghost(true),
            )
        };
        results.push(
            MoveEvaluation {
                action,
                before_score,
                score,
                delta: score - before_score,
                nodes: budget.nodes,
                exhausted: budget.exhausted,
                completed_depth: config.depth,
                table_hits: budget.table_hits,
            },
        );
        if score > alpha {
            alpha = score;
        }
        i = i + 1;
        if budget.exhausted {
            proof {
                assert(results@[i - 1].exhausted);
            }
            break;
        }
    }
    let sorted = sort_evaluations(&results);
    proof {
        assert forall|k: int| 0 <= k < sorted@.len() implies results@.contains(#[trigger] sorted@[k]) by {
            assert(sorted@.to_multiset().count(sorted@[k]) > 0);
        }
        assert forall|k: int| 0 <= k < sorted@.len() implies analysis_ok(state, config, #[trigger] sorted@[k]) && sorted@[k].nodes <= config.max_nodes by {
            assert(results@.contains(sorted@[k]));
            let w = choose|w: int| 0 <= w < results@.len() && results@[w] == sorted@[k];
            assert(analysis_ok(state, config, results@[w]));
        }
        if sorted@.len() < max_actions && sorted@.len() < state.spec_legal_actions().len() && !(sorted@.len() == 0 && config.max_nodes == 0) {
            let k = choose|k: int|
                0 <= k < results@.len() && ((#[trigger] results@[k]).exhausted || results@[k].nodes
                    >= config.max_nodes);
            assert(results@.to_multiset().count(results@[k]) > 0);
            assert(sorted@.contains(results@[k]));
            let q = choose|q: int| 0 <= q < sorted@.len() && sorted@[q] == results@[k];
            assert(sorted@[q].exhausted || sorted@[q].nodes >= config.max_nodes);
        }
        let n = sorted@.len() as int;
        let head = ordered@.take(n);
        assert forall|a: Action|
            head.contains(a) <==> exists|i: int| 0 <= i < n && (#[trigger] sorted@[i]).action == a by {
            if head.contains(a) {
                let k = choose|k: int| 0 <= k < head.len() && head[k] == a;
                assert(results@[k].action == a);
                assert(results@.to_multiset().count(results@[k]) > 0);
                assert(sorted@.contains(results@[k]));
                let q = choose|q: int| 0 <= q < sorted@.len() && sorted@[q] == results@[k];
                assert(sorted@[q].action == a);
            }
            if exists|i: int| 0 <= i < n && (#[trigger] sorted@[i]).action == a {
                let i = choose|i: int| 0 <= i < n && (#[trigger] sorted@[i]).action == a;
                assert(results@.contains(sorted@[i]));
                let v = choose|v: int| 0 <= v < results@.len() && results@[v] == sorted@[i];
                assert(head[v] == a);
            }
        }
        assert(in_move_order(state, state.turn, config.weights, ordered@));
    }
    sorted
}

/// Scores the first `max_actions` root actions each on its own, from the
/// tactical-safe root when `tactical_filter` is set and from Pathfinder's
/// ordered root otherwise, and ranks them by descending score, then action
/// order.
pub fn independent_rankings(
    state: GameState,
    config: SearchConfig,
    max_actions: usize,
    tactical_filter: bool,
) -> (r: Vec<MoveEvaluation>)
    requires
        tactical_ready(state, config),
    ensures
        evaluations_ranked(r@),
        forall|i: int| 0 <= i < r@.len() ==> analysis_ok(state, config, #[trigger] r@[i]),
        r@.len() <= max_actions,
        !tactical_filter ==> r@.len() == if max_actions < state.spec_legal_actions().len() {
            max_actions as int
        } else {
            state.spec_legal_actions().len() as int
        },
        state.spec_legal_actions().len() > 0 && max_actions > 0 ==> r@.len() > 0,
{
    let actions = if tactical_filter {
        tactical_root_safe_actions(state, state.turn, config.weights)
    } else {
        ordered_root_actions(state, state.turn, config.weights)
    };
    let mut results: Vec<MoveEvaluation> = Vec::new();
    let mut i: usize = 0;
    while i < actions.len() && i < max_actions
        invariant
            i <= actions@.len(),
            i <= max_actions,
            results@.len() == i,
            search_ready(state, config),
            forall|j: int| 0 <= j < actions@.len() ==> state.spec_legal_actions().contains(#[trigger] actions@[j]),
            forall|j: int| 0 <= j < results@.len() ==> analysis_ok(state, config, #[trigger] results@[j]),
        decreases actions@.len() - i,
    {
        match analyze_action(state, actions[i], config) {
            Ok(evaluation) => {
                results.push(evaluation);
            },
            Err(_) => {
                proof {
                    assert(state.spec_legal_actions().contains(actions@[i as int]));
                }
            },
        }
        i = i + 1;
    }
    let sorted = sort_evaluations(&results);
    proof {
        assert forall|j: int| 0 <= j < sorted@.len() implies analysis_ok(state, config, #[trigger] sorted@[j]) by {
            assert(sorted@.to_multiset().count(sorted@[j]) > 0) by {
                broadcast use vstd::seq_lib::group_to_multiset_ensures;
            }
            assert(results@.to_multiset().count(sorted@[j]) > 0);
            assert(results@.contains(sorted@[j])) by {
                broadcast use vstd::seq_lib::group_to_multiset_ensures;
            }
        }
    }
    sorted
}

/// The baseline's score of one action: the win score for a winning move,
/// otherwise captures, the shortening of the mover's connection distance,
/// the lengthening of the opponent's, and a small bonus for relocating.
pub open spec fn lunatic_score(state: GameState, action: Action) -> int {
    let player = state.turn;
    let opponent = player.opponent();
    let transition = state.spec_apply(action);
    if transition.state.winner == Some(player) {
        WIN_SCORE as int
    } else {
        bit_count(transition.captured) * 10_000 + (join_cost(state, player) - join_cost(
            transition.state,
            player,
        )) * 500 + (join_cost(transition.state, opponent) - join_cost(state, opponent)) * 350 + (
        match action {
            Action::Relocate { .. } => 10int,
            Action::Place { .. } => 0int,
        })
    }
}

/// How the baseline weighs two moves that do not win at once and are of
/// one kind: with the other two measures alike, it scores higher the move
/// that leaves the opponent farther from connecting, the move that brings
/// the mover nearer to connecting, and the move that captures more.
pub proof fn law_lunatic_score_monotone(state: GameState, a: Action, b: Action)
    requires
        !wins_at_once(state, a),
        !wins_at_once(state, b),
        (a is Place) == (b is Place),
    ensures
        bit_count(state.spec_apply(a).captured) == bit_count(state.spec_apply(b).captured) && join_cost(
            state.spec_apply(a).state,
            state.turn,
        ) == join_cost(state.spec_apply(b).state, state.turn) ==> (join_cost(
            state.spec_apply(a).state,
            state.turn.opponent(),
        ) > join_cost(state.spec_apply(b).state, state.turn.opponent()) <==> lunatic_score(state, a)
            > lunatic_score(state, b)),
        bit_count(state.spec_apply(a).captured) == bit_count(state.spec_apply(b).captured) && join_cost(
            state.spec_apply(a).state,
            state.turn.opponent(),
        ) == join_cost(state.spec_apply(b).state, state.turn.opponent()) ==> (join_cost(
            state.spec_apply(a).state,
            state.turn,
        ) < join_cost(state.spec_apply(b).state, state.turn) <==> lunatic_score(state, a) > lunatic_score(
            state,
            b,
        )),
        join_cost(state.spec_apply(a).state, state.turn) == join_cost(state.spec_apply(b).state, state.turn)
            && join_cost(state.spec_apply(a).state, state.turn.opponent()) == join_cost(
            state.spec_apply(b).state,
            state.turn.opponent(),
        ) ==> (bit_count(state.spec_apply(a).captured) > bit_count(state.spec_apply(b).captured) <==> lunatic_score(
            state,
            a,
        ) > lunatic_score(state, b)),
{
}

/// `best` scores at least as high as `other` for the baseline, and comes
/// first in action order on a tie.
pub open spec fn lunatic_prefers(state: GameState, best: Action, other: Action) -> bool {
    ||| lunatic_score(state, other) < lunatic_score(state, best)
    ||| (lunatic_score(state, other) == lunatic_score(state, best) && best.spec_order()
        <= other.spec_order())
}

/// The breadth baseline: each legal action scored once, without the
/// opponent's reply, by captures and by the change in both connection
/// distances; a winning action scores the win score.
pub fn lunatic_action(state: GameState) -> (r: SearchResult)
    requires
        playable(state),
    ensures
        (r.action is None) == (state.spec_legal_actions().len() == 0),
        r.action matches Some(a) ==> state.spec_legal_actions().contains(a),
        (exists|a: Action| state.spec_legal_actions().contains(a) && wins_at_once(state, a)) ==> (
        r.action matches Some(b) && wins_at_once(state, b)),
        r.action is Some ==> r.nodes == state.spec_legal_actions().len() && r.completed_depth == 1,
        r.action is None ==> r.nodes == 0 && r.completed_depth == 0 && is_evaluation(
            state,
            state.turn,
            default_weights(),
            r.score as int,
        ),
        r.action matches Some(b) ==> r.score == lunatic_score(state, b) && forall|a: Action|
            #[trigger] state.spec_legal_actions().contains(a) ==> lunatic_prefers(state, b, a),
        !r.exhausted,
        r.table_hits == 0,
{
    proof {
        lemma_cells(state.config.board_size as int);
    }
    let actions = state.legal_actions();
    if actions.len() == 0 {
        proof {
            if state.spec_legal_actions().len() > 0 {
                assert(state.spec_legal_actions().contains(state.spec_legal_actions()[0]));
            }
        }
        return SearchResult {
            action: None,
            score: evaluate(state, state.turn, EvaluationWeights::default()),
            nodes: 0,
            exhausted: false,
            completed_depth: 0,
            table_hits: 0,
        };
    }
    let player = state.turn;
    let before_own_distance = connection_distance(state, player);
    let before_opponent_distance = connection_distance(state, player.other());
    let mut best_action = actions[0];
    let mut best_score = NEG_INF;
    let mut i: usize = 0;
    while i < actions.len()
        invariant
            playable(state),
            player == state.turn,
            actions@ == state.spec_legal_actions(),
            actions@.len() > 0,
            i <= actions@.len(),
            0 <= before_own_distance <= 64,
            0 <= before_opponent_distance <= 64,
            state.spec_legal_actions().contains(best_action),
            i == 0 ==> best_score == NEG_INF,
            best_score == WIN_SCORE ==> wins_at_once(state, best_action),
            (exists|k: int| 0 <= k < i && wins_at_once(state, #[trigger] actions@[k])) ==> best_score == WIN_SCORE,
            best_score <= WIN_SCORE,
            before_own_distance == join_cost(state, player),
            before_opponent_distance == join_cost(state, player.opponent()),
            i > 0 ==> best_score == lunatic_score(state, best_action),
            forall|k: int| 0 <= k < i ==> lunatic_prefers(state, best_action, #[trigger] actions@[k]),
        decreases actions@.len() - i,
    {
        let action = actions[i];
        proof {
            law_play_keeps_inventory(state, action);
            lemma_cells(state.config.board_size as int);
        }
        let transition = state.apply_legal(action);
        let score = if transition.state.winner == Some(player) {
            WIN_SCORE
        } else {
            let own_distance = connection_distance(transition.state, player);
            let opponent_distance = connection_distance(transition.state, player.other());
            let relocation_bonus: i32 = match action {
                Action::Relocate { .. } => 10,
                Action::Place { .. } => 0,
            };
            proof {
                lemma_squares_below(transition.captured, 64);
            }
            popcount(transition.captured) as i32 * 10_000 + (before_own_distance - own_distance)
                * 500 + (opponent_distance - before_opponent_distance) * 350 + relocation_bonus
        };
        let ghost previous = best_action;
        if score > best_score || (score == best_score && action.order() < best_action.order()) {
            best_action = action;
            best_score = score;
        }
        proof {
            assert(score == lunatic_score(state, action));
            assert forall|k: int| 0 <= k < i + 1 implies lunatic_prefers(
                state,
                best_action,
                #[trigger] actions@[k],
            ) by {
                if k < i {
                    assert(lunatic_prefers(state, previous, actions@[k]));
                }
            }
            assert forall|k: int| 0 <= k < i + 1 && wins_at_once(state, #[trigger] actions@[k]) implies best_score == WIN_SCORE by {
                if k == i {
                    assert(score == WIN_SCORE);
                }
            }
        }
        i = i + 1;
    }
    proof {
        if exists|a: Action| state.spec_legal_actions().contains(a) && wins_at_once(state, a) {
            let a = choose|a: Action| state.spec_legal_actions().contains(a) && wins_at_once(state, a);
            let w = choose|w: int| 0 <= w < actions@.len() && actions@[w] == a;
            assert(wins_at_once(state, actions@[w]));
        }
        assert forall|a: Action| #[trigger] state.spec_legal_actions().contains(a) implies lunatic_prefers(
            state,
            best_action,
            a,
        ) by {
            let w = choose|w: int| 0 <= w < actions@.len() && actions@[w] == a;
            assert(lunatic_prefers(state, best_action, actions@[w]));
        }
    }
    SearchResult {
        action: Some(best_action),
        score: best_score,
        nodes: actions.len() as u64,
        exhausted: false,
        completed_depth: 1,
        table_hits: 0,
    }
}

/// What a probed search satisfies: a legal action exactly when one exists,
/// the shared node budget respected, and a score inside the search bounds.
pub open spec fn probe_result_ok(state: GameState, config: SearchConfig, result: SearchResult) -> bool {
    &&& (result.action is None) == (state.spec_legal_actions().len() == 0)
    &&& result.action matches Some(action) ==> state.spec_legal_actions().contains(action)
    &&& result.nodes <= config.max_nodes
    &&& NEG_INF <= result.score <= POS_INF
}

/// Spends a scout budget analysing the first root actions at `probe_depth`,
/// then searches the full root set ordered by the scout's scores. Both
/// phases draw on the one node budget.
pub fn search_best_action_with_root_probe(
    state: GameState,
    config: SearchConfig,
    probe_depth: u8,
    probe_nodes: u64,
    probe_actions: usize,
) -> (r: SearchResult)
    requires
        search_ready(state, config),
        searchable(state, probe_depth as int),
    ensures
        probe_result_ok(state, config, r),
        probe_depth == 0 || probe_nodes == 0 || probe_actions == 0 ==> plain_search_ok(state, config, r),
        config.max_nodes == 0 && probe_depth > 0 && probe_nodes > 0 && probe_actions > 0
            && state.spec_legal_actions().len() > 0 ==> r.nodes == 0 && r.exhausted,
{
    if probe_depth == 0 || probe_nodes == 0 || probe_actions == 0 {
        return search_best_action(state, config);
    }
    let probe_config = SearchConfig {
        depth: probe_depth,
        max_nodes: if probe_nodes < config.max_nodes {
            probe_nodes
        } else {
            config.max_nodes
        },
        ..config
    };
    let fallback = ordered_root_actions(state, state.turn, config.weights);
    if fallback.len() == 0 {
        return search_best_action(state, config);
    }
    let wanted = if probe_actions < fallback.len() {
        probe_actions
    } else {
        fallback.len()
    };
    let analyses = analyze_actions(state, probe_config, wanted);
    let last_nodes: u64 = if analyses.len() > 0 {
        analyses[analyses.len() - 1].nodes
    } else {
        0
    };
    let consumed = if last_nodes < config.max_nodes {
        last_nodes
    } else {
        config.max_nodes
    };
    if analyses.len() == 0 || consumed >= config.max_nodes {
        proof {
            lemma_cells(state.config.board_size as int);
            assert(state.spec_legal_actions().contains(fallback@[0]));
            law_play_keeps_inventory(state, fallback@[0]);
        }
        let best = if analyses.len() > 0 {
            proof {
                assert(analysis_ok(state, probe_config, analyses@[0]));
            }
            analyses[0]
        } else {
            MoveEvaluation {
                action: fallback[0],
                before_score: evaluate_bounded(state, state.turn, config.weights),
                score: evaluate_bounded(state.apply_legal(fallback[0]).state, state.turn, config.weights),
                delta: 0,
                nodes: consumed,
                exhausted: consumed >= config.max_nodes,
                completed_depth: probe_depth,
                table_hits: 0,
            }
        };
        return SearchResult {
            action: Some(best.action),
            score: best.score,
            nodes: consumed,
            exhausted: consumed >= config.max_nodes,
            completed_depth: best.completed_depth,
            table_hits: best.table_hits,
        };
    }
    let mut root_order: Vec<Action> = Vec::new();
    let mut i: usize = 0;
    while i < analyses.len()
        invariant
            i <= analyses@.len(),
        decreases analyses@.len() - i,
    {
        root_order.push(analyses[i].action);
        i = i + 1;
    }
    let mut j: usize = 0;
    while j < fallback.len()
        invariant
            j <= fallback@.len(),
        decreases fallback@.len() - j,
    {
        let action = fallback[j];
        if !lists_action(root_order.as_slice(), action) {
            root_order.push(action);
        }
        j = j + 1;
    }
    let rest_config = SearchConfig { max_nodes: config.max_nodes - consumed, ..config };
    let result = search_best_action_with_root_order_and_root_limit(
        state,
        rest_config,
        root_order.as_slice(),
        false,
        None,
    );
    SearchResult {
        action: result.action,
        score: result.score,
        nodes: consumed + result.nodes,
        exhausted: result.exhausted,
        completed_depth: result.completed_depth,
        table_hits: result.table_hits,
    }
}

} // verus!
