//! Pathfinder-style shallow guidance: every root action receives a cheap
//! successor score, and only the best-ordered root beam spends a deeper
//! alpha-beta budget. The scores are a soft ranking prior.

use vstd::prelude::*;

use crate::rules::{law_play_keeps_inventory, Action, GameState, Player};
use crate::search::{
    can_search, evaluate, is_evaluation, playable, wins_at_once, EvaluationWeights, SearchConfig, HEURISTIC_LIMIT,
    WIN_SCORE,
};

verus! {

pub const GUIDE_WIN_SCORE: i64 = 1_000_000_000;

pub const TACTICAL_WIN_SCORE: i64 = 2_000_000_000;

/// The search window's bounds.
pub const GUIDE_LOW: i64 = -2305843009213693952;

pub const GUIDE_HIGH: i64 = 2305843009213693951;

#[derive(Clone, Copy, Debug, PartialEq, Eq, Structural)]
pub struct PathfinderConfig {
    pub depth: u8,
    pub beam_width: usize,
    pub max_nodes: u64,
}

impl Default for PathfinderConfig {
    fn default() -> (r: Self)
        ensures
            r == (PathfinderConfig { depth: 2, beam_width: 8, max_nodes: 1_000 }),
    {
        PathfinderConfig { depth: 2, beam_width: 8, max_nodes: 1_000 }
    }
}

#[derive(Debug)]
pub struct PathfinderGuide {
    pub config: PathfinderConfig,
    pub nodes: u64,
}

/// The tie-break key of an action: its destination for a placement, and
/// origin and destination for a relocation.
pub open spec fn spec_action_sort_key(action: Action) -> int {
    match action {
        Action::Place { to } => to as int,
        Action::Relocate { from, to } => from as int * 10_000 + to as int,
    }
}

pub fn action_sort_key(action: Action) -> (r: u32)
    ensures
        r == spec_action_sort_key(action),
{
    match action {
        Action::Place { to } => to as u32,
        Action::Relocate { from, to } => from as u32 * 10_000 + to as u32,
    }
}

/// Whether `a` ranks strictly before `b`: higher score first, then the
/// smaller sort key.
pub open spec fn ranks_before(a: (i64, Action), b: (i64, Action)) -> bool {
    a.0 > b.0 || (a.0 == b.0 && spec_action_sort_key(a.1) < spec_action_sort_key(b.1))
}

fn ranks_before_exec(a: (i64, Action), b: (i64, Action)) -> (r: bool)
    ensures
        r == ranks_before(a, b),
{
    a.0 > b.0 || (a.0 == b.0 && action_sort_key(a.1) < action_sort_key(b.1))
}

/// A stable insertion sort by descending score, then sort key.
fn sort_scored(items: &Vec<(i64, Action)>) -> (r: Vec<(i64, Action)>)
    ensures
        r@.to_multiset() == items@.to_multiset(),
        r@.len() == items@.len(),
        forall|i: int, j: int| 0 <= i < j < r@.len() ==> !ranks_before(#[trigger] r@[j], #[trigger] r@[i]),
{
    broadcast use vstd::seq_lib::group_to_multiset_ensures;

    let mut sorted: Vec<(i64, Action)> = Vec::new();
    let mut k: usize = 0;
    while k < items.len()
        invariant
            k <= items@.len(),
            sorted@.to_multiset() == items@.take(k as int).to_multiset(),
            sorted@.len() == k,
            forall|i: int, j: int| 0 <= i < j < sorted@.len() ==> !ranks_before(#[trigger] sorted@[j], #[trigger] sorted@[i]),
        decreases items@.len() - k,
    {
        let x = items[k];
        let mut p: usize = 0;
        while p < sorted.len() && !ranks_before_exec(x, sorted[p])
            invariant
                p <= sorted@.len(),
                forall|q: int| 0 <= q < p ==> !ranks_before(x, #[trigger] sorted@[q]),
            decreases sorted@.len() - p,
        {
            p = p + 1;
        }
        let ghost before = sorted@;
        sorted.insert(p, x);
        proof {
            assert(items@.take(k as int + 1) =~= items@.take(k as int).push(x));
            vstd::seq_lib::to_multiset_build(items@.take(k as int), x);
            vstd::seq_lib::to_multiset_insert(before, p as int, x);
            assert forall|i: int, j: int| 0 <= i < j < sorted@.len() implies !ranks_before(
                #[trigger] sorted@[j],
                #[trigger] sorted@[i],
            ) by {
                if j < p {
                    assert(sorted@[i] == before[i] && sorted@[j] == before[j]);
                } else if j == p {
                    assert(sorted@[i] == before[i]);
                } else if i > p {
                    assert(sorted@[i] == before[i - 1] && sorted@[j] == before[j - 1]);
                } else if i < p {
                    assert(sorted@[i] == before[i] && sorted@[j] == before[j - 1]);
                } else {
                    assert(sorted@[j] == before[j - 1]);
                    assert(ranks_before(x, before[p as int]));
                    if j - 1 > p {
                        assert(!ranks_before(before[j - 1], before[p as int]));
                    }
                }
            }
        }
        k = k + 1;
    }
    proof {
        assert(items@.take(items@.len() as int) =~= items@);
    }
    sorted
}

/// The positions the guide can search `depth` plies below.
pub open spec fn guide_ready(state: GameState, depth: int) -> bool {
    &&& state.inventory_kept()
    &&& state.ply + depth + 1 <= u16::MAX
}

/// The tactical part of a move's guide score: a decisive win, else ten
/// thousand per captured piece.
pub open spec fn guide_tactical(state: GameState, action: Action) -> int {
    let next = state.spec_apply(action).state;
    if next.winner == Some(state.turn) {
        TACTICAL_WIN_SCORE as int
    } else {
        next.last_capture as int * 10_000
    }
}

/// `score` is a guide score of `action`: its tactical part plus an
/// evaluation of the resulting position for `root`.
pub open spec fn is_move_score(state: GameState, action: Action, root: Player, weights: EvaluationWeights, score: int) -> bool {
    exists|e: int|
        is_evaluation(state.spec_apply(action).state, root, weights, e) && score == guide_tactical(state, action) + e
}

/// `scores` are guide scores of `actions`, one each, and the actions run by
/// descending score, then sort key.
pub open spec fn scored_in_order(
    state: GameState,
    root: Player,
    weights: EvaluationWeights,
    actions: Seq<Action>,
    scores: Seq<i64>,
) -> bool {
    &&& scores.len() == actions.len()
    &&& forall|i: int| 0 <= i < actions.len() ==> is_move_score(state, #[trigger] actions[i], root, weights, scores[i] as int)
    &&& forall|i: int, j: int| 0 <= i < j < actions.len() ==> !ranks_before(
        (#[trigger] scores[j], actions[j]),
        (#[trigger] scores[i], actions[i]),
    )
}

/// The mover has an action that wins at once.
pub open spec fn has_winning_move(state: GameState) -> bool {
    exists|a: Action| #[trigger] state.spec_legal_actions().contains(a) && state.spec_apply(a).state.winner == Some(state.turn)
}

/// The value of a position one ply after `state` in which the mover has
/// just won, seen from `root`.
pub open spec fn win_next_value(state: GameState, root: Player) -> int {
    if state.turn == root {
        WIN_SCORE - (state.ply + 1)
    } else {
        -(WIN_SCORE - (state.ply + 1))
    }
}

/// `value` is the one-ply minimax value of `state` seen from `root`: the
/// evaluation of some child, and no child evaluates higher when `root` is
/// to move, or lower when the opponent is.
pub open spec fn one_ply_value(state: GameState, root: Player, weights: EvaluationWeights, value: int) -> bool {
    &&& exists|a: Action|
        #[trigger] state.spec_legal_actions().contains(a) && is_evaluation(state.spec_apply(a).state, root, weights, value)
    &&& forall|a: Action, e: int|
        state.spec_legal_actions().contains(a) && #[trigger] is_evaluation(state.spec_apply(a).state, root, weights, e) ==> if state.turn
            == root {
            e <= value
        } else {
            value <= e
        }
}

/// The one-ply value is unique: two complete depth-one guide searches of a
/// position for one root player and one set of weights return the same
/// score, whatever the window or the budget they started from.
pub proof fn law_one_ply_value_unique(state: GameState, root: Player, weights: EvaluationWeights, v: int, w: int)
    requires
        one_ply_value(state, root, weights, v),
        one_ply_value(state, root, weights, w),
    ensures
        v == w,
{
    let a = choose|a: Action| #[trigger] state.spec_legal_actions().contains(a) && is_evaluation(state.spec_apply(a).state, root, weights, v);
    let b = choose|b: Action| #[trigger] state.spec_legal_actions().contains(b) && is_evaluation(state.spec_apply(b).state, root, weights, w);
    assert(is_evaluation(state.spec_apply(a).state, root, weights, v));
    assert(is_evaluation(state.spec_apply(b).state, root, weights, w));
}

/// A position has one evaluation for a player.
proof fn lemma_evaluation_unique(state: GameState, root: Player, weights: EvaluationWeights, a: int, b: int)
    requires
        is_evaluation(state, root, weights, a),
        is_evaluation(state, root, weights, b),
    ensures
        a == b,
{
    if let Some(w) = state.winner {
        match (w, root) {
            (Player::Light, Player::Light) => {},
            (Player::Light, Player::Dark) => {},
            (Player::Dark, Player::Light) => {},
            (Player::Dark, Player::Dark) => {},
        }
    }
}

/// Guide order puts a move that wins at once ahead of every move that does
/// not: its tactical part alone outweighs any capture and any heuristic.
proof fn lemma_winning_move_first(
    state: GameState,
    root: Player,
    weights: EvaluationWeights,
    actions: Seq<Action>,
    scores: Seq<i64>,
)
    requires
        scored_in_order(state, root, weights, actions, scores),
        forall|a: Action| state.spec_legal_actions().contains(a) ==> #[trigger] actions.contains(a),
        forall|i: int| 0 <= i < actions.len() ==> state.spec_legal_actions().contains(#[trigger] actions[i]),
        has_winning_move(state),
    ensures
        actions.len() > 0,
        state.spec_apply(actions[0]).state.winner == Some(state.turn),
{
    let w = choose|a: Action| #[trigger] state.spec_legal_actions().contains(a) && state.spec_apply(a).state.winner == Some(state.turn);
    assert(actions.contains(w));
    let j = choose|j: int| 0 <= j < actions.len() && actions[j] == w;
    let first = actions[0];
    if state.spec_apply(first).state.winner != Some(state.turn) {
        assert(j != 0);
        assert(is_move_score(state, actions[0], root, weights, scores[0] as int));
        assert(is_move_score(state, actions[j], root, weights, scores[j] as int));
        let e0 = choose|e: int|
            is_evaluation(state.spec_apply(first).state, root, weights, e) && scores[0] as int == guide_tactical(state, first) + e;
        let ej = choose|e: int|
            is_evaluation(state.spec_apply(w).state, root, weights, e) && scores[j] as int == guide_tactical(state, w) + e;
        assert(state.spec_apply(first).state.winner is None);
        assert(state.spec_apply(first).state.last_capture <= 255);
        assert(!ranks_before((scores[j], actions[j]), (scores[0], actions[0])));
    }
}

/// The score the guide orders a move by: decisive wins first, then captures,
/// then the evaluation of the resulting position.
fn move_score(state: GameState, action: Action, root: Player, weights: EvaluationWeights) -> (r: i64)
    requires
        playable(state),
        weights.fits(),
        state.spec_legal_actions().contains(action),
    ensures
        is_move_score(state, action, root, weights, r as int),
{
    proof {
        law_play_keeps_inventory(state, action);
    }
    let next = state.apply_legal(action).state;
    let tactical: i64 = if next.winner == Some(state.turn) {
        TACTICAL_WIN_SCORE
    } else {
        next.last_capture as i64 * 10_000
    };
    let e = evaluate(next, root, weights);
    assert(is_evaluation(state.spec_apply(action).state, root, weights, e as int));
    tactical + e as i64
}

impl PathfinderGuide {
    pub fn new(config: PathfinderConfig) -> (r: Result<Self, String>)
        ensures
            r is Ok <==> config.depth > 0 && config.beam_width > 0 && config.max_nodes > 0,
            r matches Ok(guide) ==> guide.config == config && guide.nodes == 0,
            r matches Err(e) ==> e@ == "Pathfinder guidance depth, beam, and node budget must be positive"@,
    {
        if config.depth == 0 || config.beam_width == 0 || config.max_nodes == 0 {
            return Err(String::from_str("Pathfinder guidance depth, beam, and node budget must be positive"));
        }
        Ok(PathfinderGuide { config, nodes: 0 })
    }

    /// The legal actions by descending guide score, then sort key.
    fn ordered_actions(&self, state: GameState, root: Player, weights: EvaluationWeights) -> (r: Vec<Action>)
        requires
            playable(state),
            weights.fits(),
        ensures
            forall|i: int| 0 <= i < r@.len() ==> state.spec_legal_actions().contains(#[trigger] r@[i]),
            r@.len() == state.spec_legal_actions().len(),
            forall|a: Action| state.spec_legal_actions().contains(a) ==> #[trigger] r@.contains(a),
            exists|scores: Seq<i64>| #[trigger] scored_in_order(state, root, weights, r@, scores),
    {
        broadcast use vstd::seq_lib::group_to_multiset_ensures;

        let legal = state.legal_actions();
        let mut scored: Vec<(i64, Action)> = Vec::new();
        let mut i: usize = 0;
        while i < legal.len()
            invariant
                playable(state),
                weights.fits(),
                legal@ == state.spec_legal_actions(),
                i <= legal@.len(),
                scored@.len() == i,
                forall|k: int| 0 <= k < scored@.len() ==> (#[trigger] scored@[k]).1 == legal@[k],
                forall|k: int| 0 <= k < scored@.len() ==> is_move_score(state, (#[trigger] scored@[k]).1, root, weights, scored@[k].0 as int),
            decreases legal@.len() - i,
        {
            let action = legal[i];
            scored.push((move_score(state, action, root, weights), action));
            i = i + 1;
        }
        let sorted = sort_scored(&scored);
        proof {
            assert forall|q: int| 0 <= q < sorted@.len() implies is_move_score(state, (#[trigger] sorted@[q]).1, root, weights, sorted@[q].0 as int)
                && state.spec_legal_actions().contains(sorted@[q].1) by {
                assert(sorted@.to_multiset().count(sorted@[q]) > 0);
                assert(scored@.contains(sorted@[q]));
                let w = choose|w: int| 0 <= w < scored@.len() && scored@[w] == sorted@[q];
                assert(legal@[w] == sorted@[q].1);
            }
        }
        let mut actions: Vec<Action> = Vec::new();
        let mut k: usize = 0;
        while k < sorted.len()
            invariant
                k <= sorted@.len(),
                actions@ == sorted@.take(k as int).map_values(|p: (i64, Action)| p.1),
            decreases sorted@.len() - k,
        {
            actions.push(sorted[k].1);
            proof {
                assert(actions@ =~= sorted@.take(k as int + 1).map_values(|p: (i64, Action)| p.1));
            }
            k = k + 1;
        }
        proof {
            assert(sorted@.take(sorted@.len() as int) =~= sorted@);
            let scores = sorted@.map_values(|p: (i64, Action)| p.0);
            assert forall|i: int, j: int| 0 <= i < j < actions@.len() implies !ranks_before(
                (#[trigger] scores[j], actions@[j]),
                (#[trigger] scores[i], actions@[i]),
            ) by {
                assert(!ranks_before(sorted@[j], sorted@[i]));
                assert(sorted@[j] == (scores[j], actions@[j]));
                assert(sorted@[i] == (scores[i], actions@[i]));
            }
            assert forall|i: int| 0 <= i < actions@.len() implies is_move_score(state, #[trigger] actions@[i], root, weights, scores[i] as int) by {
                assert(actions@[i] == sorted@[i].1);
            }
            assert forall|a: Action| state.spec_legal_actions().contains(a) implies #[trigger] actions@.contains(a) by {
                let w = choose|w: int| 0 <= w < legal@.len() && legal@[w] == a;
                assert(scored@[w].1 == a);
                assert(scored@.to_multiset().count(scored@[w]) > 0);
                assert(sorted@.contains(scored@[w]));
                let q = choose|q: int| 0 <= q < sorted@.len() && sorted@[q] == scored@[w];
                assert(actions@[q] == a);
            }
            assert forall|i: int| 0 <= i < actions@.len() implies state.spec_legal_actions().contains(#[trigger] actions@[i]) by {
                assert(actions@[i] == sorted@[i].1);
            }
            assert(scored_in_order(state, root, weights, actions@, scores));
        }
        actions
    }

    /// Alpha-beta over the guide's ordered beam, counting each expanded node
    /// against the node budget; a decided game, the horizon and a spent
    /// budget are evaluated directly.
    #[verifier::rlimit(100)]
    #[verifier::spinoff_prover]
    pub fn search(
        &mut self,
        state: GameState,
        root: Player,
        depth: u8,
        alpha: i64,
        beta: i64,
        weights: EvaluationWeights,
    ) -> (r: i64)
        requires
            guide_ready(state, depth as int),
            weights.fits(),
        ensures
            (state.winner is Some || depth == 0 || old(self).nodes >= old(self).config.max_nodes)
                ==> is_evaluation(state, root, weights, r as int),
            GUIDE_LOW <= r <= GUIDE_HIGH,
            final(self).config == old(self).config,
            old(self).nodes <= final(self).nodes,
            final(self).nodes <= old(self).nodes || final(self).nodes <= old(self).config.max_nodes,
            (state.winner is Some || depth == 0 || old(self).nodes >= old(self).config.max_nodes)
                ==> final(self).nodes == old(self).nodes,
            old(self).config.beam_width > 0 ==> -(WIN_SCORE - state.ply) <= r <= WIN_SCORE - state.ply,
            old(self).config.beam_width > 0 && state.winner is None && depth > 0 && old(self).nodes
                < old(self).config.max_nodes && has_winning_move(state) ==> r == win_next_value(state, root),
        depth == 1 && state.winner is None && state.spec_legal_actions().len() > 0 && old(self).nodes
                + state.spec_legal_actions().len() <= old(self).config.max_nodes && old(self).config.beam_width
                >= state.spec_legal_actions().len() && alpha < -WIN_SCORE && beta > WIN_SCORE ==> one_ply_value(
                state,
                root,
                weights,
                r as int,
            ),
        decreases depth,
    {
        if state.winner.is_some() || depth == 0 || self.nodes >= self.config.max_nodes {
            proof {
                if let Some(w) = state.winner {
                    match (w, root) {
                        (Player::Light, Player::Light) => {},
                        (Player::Light, Player::Dark) => {},
                        (Player::Dark, Player::Light) => {},
                        (Player::Dark, Player::Dark) => {},
                    }
                }
            }
            return evaluate(state, root, weights) as i64;
        }
        let actions = self.ordered_actions(state, root, weights);
        if actions.len() == 0 {
            proof {
                if has_winning_move(state) {
                    let w = choose|a: Action| #[trigger] state.spec_legal_actions().contains(a)
                        && state.spec_apply(a).state.winner == Some(state.turn);
                    assert(actions@.contains(w));
                }
            }
            return evaluate(state, root, weights) as i64;
        }
        let ghost bound: int = WIN_SCORE - (state.ply + 1);
        let ghost win_first: bool = has_winning_move(state);
        proof {
            if win_first {
                let scores = choose|scores: Seq<i64>| #[trigger] scored_in_order(state, root, weights, actions@, scores);
                lemma_winning_move_first(state, root, weights, actions@, scores);
            }
        }
        let maximizing = state.turn == root;
        let ghost alpha0 = alpha;
        let ghost beta0 = beta;
        let ghost full: bool = depth == 1 && old(self).nodes + state.spec_legal_actions().len()
            <= old(self).config.max_nodes && old(self).config.beam_width >= state.spec_legal_actions().len()
            && alpha < -WIN_SCORE && beta > WIN_SCORE;
        let mut alpha = alpha;
        let mut beta = beta;
        let mut best: i64 = if maximizing {
            GUIDE_LOW
        } else {
            GUIDE_HIGH
        };
        let limit = if actions.len() < self.config.beam_width {
            actions.len()
        } else {
            self.config.beam_width
        };
        let mut i: usize = 0;
        while i < limit
            invariant_except_break
                i == 0 ==> self.nodes == old(self).nodes,
                i == 0 ==> best == (if maximizing {
                    GUIDE_LOW
                } else {
                    GUIDE_HIGH
                }),
            invariant
                guide_ready(state, depth as int),
                depth > 0,
                weights.fits(),
                limit <= actions@.len(),
                forall|k: int| 0 <= k < actions@.len() ==> state.spec_legal_actions().contains(#[trigger] actions@[k]),
                self.config == old(self).config,
                old(self).nodes <= self.nodes,
                self.nodes <= old(self).nodes || self.nodes <= old(self).config.max_nodes,
                GUIDE_LOW <= best <= GUIDE_HIGH,
                old(self).nodes < old(self).config.max_nodes,
                maximizing == (state.turn == root),
                bound == WIN_SCORE - (state.ply + 1),
                actions@.len() > 0,
                win_first ==> state.spec_apply(actions@[0]).state.winner == Some(state.turn),
                limit <= self.config.beam_width,
                i <= limit,
                i > 0 ==> self.nodes > old(self).nodes,
                full ==> depth == 1 && old(self).nodes + state.spec_legal_actions().len() <= old(self).config.max_nodes
                    && old(self).config.beam_width >= state.spec_legal_actions().len() && alpha0 < -WIN_SCORE && beta0
                    > WIN_SCORE,
                full ==> self.nodes == old(self).nodes + i,
                full ==> limit == actions@.len() && actions@.len() == state.spec_legal_actions().len(),
                full && maximizing ==> beta == beta0 && alpha <= WIN_SCORE,
                full && !maximizing ==> alpha == alpha0 && beta >= -WIN_SCORE,
                full ==> forall|k: int, e: int|
                    0 <= k < i && #[trigger] is_evaluation(state.spec_apply(actions@[k]).state, root, weights, e) ==> if maximizing {
                        e <= best
                    } else {
                        best <= e
                    },
                full && i > 0 ==> exists|k: int|
                    0 <= k < i && #[trigger] is_evaluation(state.spec_apply(actions@[k]).state, root, weights, best as int),
                maximizing ==> best <= bound,
                !maximizing ==> best >= -bound,
                self.nodes > old(self).nodes && maximizing ==> best >= -bound,
                self.nodes > old(self).nodes && !maximizing ==> best <= bound,
                self.nodes > old(self).nodes && win_first && old(self).config.beam_width > 0 ==> best == win_next_value(state, root),
            ensures
                self.config == old(self).config,
                old(self).nodes <= self.nodes,
                self.nodes <= old(self).nodes || self.nodes <= old(self).config.max_nodes,
                GUIDE_LOW <= best <= GUIDE_HIGH,
                limit > 0 ==> self.nodes > old(self).nodes,
                full ==> i == limit,
                full ==> self.nodes == old(self).nodes + i,
                full ==> limit == actions@.len() && actions@.len() == state.spec_legal_actions().len(),
                full && maximizing ==> beta == beta0 && alpha <= WIN_SCORE,
                full && !maximizing ==> alpha == alpha0 && beta >= -WIN_SCORE,
                full ==> forall|k: int, e: int|
                    0 <= k < limit && #[trigger] is_evaluation(state.spec_apply(actions@[k]).state, root, weights, e) ==> if maximizing {
                        e <= best
                    } else {
                        best <= e
                    },
                full && limit > 0 ==> exists|k: int|
                    0 <= k < limit && #[trigger] is_evaluation(state.spec_apply(actions@[k]).state, root, weights, best as int),

                maximizing ==> best <= bound,
                !maximizing ==> best >= -bound,
                self.nodes > old(self).nodes && maximizing ==> best >= -bound,
                self.nodes > old(self).nodes && !maximizing ==> best <= bound,
                self.nodes > old(self).nodes && win_first && old(self).config.beam_width > 0 ==> best == win_next_value(state, root),
            decreases limit - i,
        {
            if self.nodes >= self.config.max_nodes {
                proof {
                    if full {
                        assert(self.nodes == old(self).nodes + i);
                        assert(i < state.spec_legal_actions().len());
                    }
                }
                break;
            }
            self.nodes = self.nodes + 1;
            let action = actions[i];
            proof {
                law_play_keeps_inventory(state, action);
            }
            let next = state.apply_legal(action).state;
            let ghost best_before = best;
            let score = self.search(next, root, depth - 1, alpha, beta, weights);
            if maximizing {
                if score > best {
                    best = score;
                }
                if best > alpha {
                    alpha = best;
                }
            } else {
                if score < best {
                    best = score;
                }
                if best < beta {
                    beta = best;
                }
            }
            proof {
                if full {
                    assert(next == state.spec_apply(actions@[i as int]).state);
                    assert(is_evaluation(next, root, weights, score as int));
                    assert forall|k: int, e: int|
                        0 <= k < i + 1 && #[trigger] is_evaluation(state.spec_apply(actions@[k]).state, root, weights, e) implies (if maximizing {
                        e <= best
                    } else {
                        best <= e
                    }) by {
                        if k == i {
                            lemma_evaluation_unique(next, root, weights, e, score as int);
                        } else {
                            assert(if maximizing {
                                e <= best_before
                            } else {
                                best_before <= e
                            });
                        }
                    }
                    if best == score {
                        assert(is_evaluation(state.spec_apply(actions@[i as int]).state, root, weights, best as int));
                    } else {
                        assert(i > 0);
                        let k = choose|k: int|
                            0 <= k < i && #[trigger] is_evaluation(state.spec_apply(actions@[k]).state, root, weights, best_before as int);
                        assert(is_evaluation(state.spec_apply(actions@[k]).state, root, weights, best as int));
                    }
                }
            }
            proof {
                if full {
                    if maximizing {
                        assert(beta == beta0);
                        assert(alpha <= WIN_SCORE);
                    } else {
                        assert(alpha == alpha0);
                        assert(beta >= -WIN_SCORE);
                    }
                }
            }
            if beta <= alpha {
                break;
            }
            i = i + 1;
        }
        proof {
            if full && state.winner is None && state.spec_legal_actions().len() > 0 {
                let k = choose|k: int|
                    0 <= k < limit && #[trigger] is_evaluation(state.spec_apply(actions@[k]).state, root, weights, best as int);
                assert(state.spec_legal_actions().contains(actions@[k]));
                assert forall|a: Action, e: int|
                    state.spec_legal_actions().contains(a) && #[trigger] is_evaluation(state.spec_apply(a).state, root, weights, e) implies (if state.turn
                    == root {
                    e <= best
                } else {
                    best <= e
                }) by {
                    assert(actions@.contains(a));
                    let q = choose|q: int| 0 <= q < actions@.len() && actions@[q] == a;
                    assert(is_evaluation(state.spec_apply(actions@[q]).state, root, weights, e));
                }
            }
        }
        best
    }

    /// Scores every given root action: a win at once scores the win score; the
    /// other actions score their resulting position, and those in the ordered
    /// root beam are refined by the guide's search while the budget lasts.
    /// Whether the guide can score the root actions of `state`.
    pub fn can_guide(&self, state: GameState) -> (r: bool)
        ensures
            r == guide_ready(state, self.config.depth as int + 1),
    {
        let probe = SearchConfig {
            depth: 0,
            max_nodes: 0,
            beam_width: 0,
            weights: EvaluationWeights::default(),
            tactical_proof_horizon: None,
        };
        can_search(state, probe) && state.ply as u64 + self.config.depth as u64 + 2 <= u16::MAX as u64
    }

    pub fn root_scores(&mut self, state: GameState, actions: &[Action]) -> (r: Vec<i64>)
        requires
            guide_ready(state, old(self).config.depth as int + 1),
            forall|i: int| 0 <= i < actions@.len() ==> state.spec_legal_actions().contains(#[trigger] actions@[i]),
        ensures
            r@.len() == actions@.len(),
            forall|i: int| 0 <= i < actions@.len() && wins_at_once(state, #[trigger] actions@[i]) ==> r@[i]
                == GUIDE_WIN_SCORE,
            forall|i: int| 0 <= i < r@.len() ==> GUIDE_LOW <= #[trigger] r@[i] <= GUIDE_HIGH,
            final(self).config == old(self).config,
            final(self).nodes <= old(self).config.max_nodes,
    {
        self.nodes = 0;
        let root = state.turn;
        let weights = EvaluationWeights::default();
        let mut fallback: Vec<i64> = Vec::new();
        let mut ordered: Vec<(i64, Action)> = Vec::new();
        let mut i: usize = 0;
        while i < actions.len()
            invariant
                guide_ready(state, self.config.depth as int + 1),
                root == state.turn,
                weights.fits(),
                forall|k: int| 0 <= k < actions@.len() ==> state.spec_legal_actions().contains(#[trigger] actions@[k]),
                i <= actions@.len(),
                fallback@.len() == i,
                forall|k: int| 0 <= k < i && wins_at_once(state, #[trigger] actions@[k]) ==> fallback@[k] == GUIDE_WIN_SCORE,
                forall|k: int| 0 <= k < i ==> GUIDE_LOW <= #[trigger] fallback@[k] <= GUIDE_HIGH,
                forall|k: int| 0 <= k < ordered@.len() ==> state.spec_legal_actions().contains((#[trigger] ordered@[k]).1),
            decreases actions@.len() - i,
        {
            let action = actions[i];
            proof {
                law_play_keeps_inventory(state, action);
                crate::geometry::lemma_cells(state.config.board_size as int);
            }
            let afterstate = state.apply_legal(action).state;
            let fallback_score: i64 = if afterstate.winner == Some(root) {
                GUIDE_WIN_SCORE
            } else {
                evaluate(afterstate, root, weights) as i64
            };
            let tactical: i64 = if afterstate.winner == Some(state.turn) {
                TACTICAL_WIN_SCORE
            } else {
                afterstate.last_capture as i64 * 10_000
            };
            fallback.push(fallback_score);
            ordered.push((tactical + fallback_score, action));
            i = i + 1;
        }
        let sorted = sort_scored(&ordered);
        proof {
            assert forall|k: int| 0 <= k < sorted@.len() implies state.spec_legal_actions().contains((#[trigger] sorted@[k]).1) by {
                broadcast use vstd::seq_lib::group_to_multiset_ensures;

                assert(sorted@.contains(sorted@[k]));
                assert(sorted@.to_multiset().count(sorted@[k]) > 0);
                assert(ordered@.contains(sorted@[k]));
            }
        }
        let mut scores = fallback;
        let limit = if sorted.len() < self.config.beam_width {
            sorted.len()
        } else {
            self.config.beam_width
        };
        let mut b: usize = 0;
        while b < limit
            invariant
                guide_ready(state, self.config.depth as int + 1),
                root == state.turn,
                weights.fits(),
                limit <= sorted@.len(),
                forall|k: int| 0 <= k < sorted@.len() ==> state.spec_legal_actions().contains((#[trigger] sorted@[k]).1),
                scores@.len() == actions@.len(),
                forall|k: int| 0 <= k < actions@.len() && wins_at_once(state, #[trigger] actions@[k]) ==> scores@[k] == GUIDE_WIN_SCORE,
                forall|k: int| 0 <= k < scores@.len() ==> GUIDE_LOW <= #[trigger] scores@[k] <= GUIDE_HIGH,
                self.config == old(self).config,
                self.nodes <= self.config.max_nodes,
            decreases limit - b,
        {
            let action = sorted[b].1;
            proof {
                law_play_keeps_inventory(state, action);
            }
            let afterstate = state.apply_legal(action).state;
            if afterstate.winner == Some(root) || self.nodes >= self.config.max_nodes {
                b = b + 1;
                continue;
            }
            self.nodes = self.nodes + 1;
            let depth = if self.config.depth == 0 {
                0
            } else {
                self.config.depth - 1
            };
            let score = self.search(afterstate, root, depth, GUIDE_LOW, GUIDE_HIGH, weights);
            let mut p: usize = 0;
            while p < actions.len()
                invariant
                    p <= actions@.len(),
                    forall|k: int| 0 <= k < p ==> actions@[k] != action,
                ensures
                    p < actions@.len() ==> actions@[p as int] == action,
                decreases actions@.len() - p,
            {
                if actions[p] == action {
                    break;
                }
                p = p + 1;
            }
            if p < actions.len() {
                proof {
                    assert(!wins_at_once(state, actions@[p as int]));
                }
                scores.set(p, score);
            }
            b = b + 1;
        }
        scores
    }
}

} // verus!
