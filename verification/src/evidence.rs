//! Labels drawn from exact endgame rows, for held-out matches and training
//! exports: the proven winning moves of a row, the urgency targets (the
//! fastest win or the slowest loss), the moves that block an immediate loss,
//! how a searched move fares against the labels, and the hexadecimal
//! spelling of a canonical key.

use vstd::prelude::*;

use crate::golden::GoldenOutcome;
use crate::golden::markers_on_board;
use crate::golden_book::{book_proven_action, least_winning_action, GoldenActionValue};
use crate::golden_table::MemoryGoldenLookup;
use crate::rules::{contains_action, Action, GameState};
use crate::search::{
    analysis_ok, independent_rankings, lookahead_ready, opens_win, opens_win_exec, playable, ranked,
    root_best, search_best_action, search_best_action_with_golden, search_best_action_with_tactical_filter,
    sort_ranked, tactical_ready, wins_at_once, MoveEvaluation, SearchConfig, WIN_SCORE, NEG_INF, POS_INF,
};
use crate::text::{decimal_string_u64, decimal_text};

verus! {

/// Non-decreasing in action order.
pub open spec fn in_action_order(actions: Seq<Action>) -> bool {
    forall|i: int, j: int|
        0 <= i < j < actions.len() ==> (#[trigger] actions[i]).spec_order() <= (#[trigger] actions[j]).spec_order()
}

/// No action directly repeats the one before it.
pub open spec fn no_adjacent_repeat(actions: Seq<Action>) -> bool {
    forall|i: int| 0 < i < actions.len() ==> #[trigger] actions[i] != actions[i - 1]
}

/// The actions of `items`, in action order, with adjacent repeats dropped.
fn sorted_unique(items: &Vec<Action>) -> (r: Vec<Action>)
    ensures
        in_action_order(r@),
        no_adjacent_repeat(r@),
        forall|a: Action| r@.contains(a) <==> items@.contains(a),
{
    broadcast use vstd::seq_lib::group_to_multiset_ensures;

    let mut pairs: Vec<(Action, i32)> = Vec::new();
    let mut j: usize = 0;
    while j < items.len()
        invariant
            j <= items@.len(),
            pairs@ == items@.take(j as int).map_values(|a: Action| (a, 0i32)),
        decreases items@.len() - j,
    {
        pairs.push((items[j], 0i32));
        proof {
            assert(pairs@ =~= items@.take(j as int + 1).map_values(|a: Action| (a, 0i32)));
        }
        j = j + 1;
    }
    proof {
        assert(items@.take(items@.len() as int) =~= items@);
    }
    let sorted = sort_ranked(&pairs, false, true);
    proof {
        assert forall|k: int| 0 <= k < sorted@.len() implies (#[trigger] sorted@[k]).1 == 0
            && items@.contains(sorted@[k].0) by {
            assert(sorted@.to_multiset().count(sorted@[k]) > 0);
            assert(pairs@.contains(sorted@[k]));
            let p = choose|p: int| 0 <= p < pairs@.len() && pairs@[p] == sorted@[k];
            assert(pairs@[p] == (items@[p], 0i32));
        }
        assert forall|a: Action| items@.contains(a) implies exists|k: int|
            0 <= k < sorted@.len() && (#[trigger] sorted@[k]).0 == a by {
            let p = choose|p: int| 0 <= p < items@.len() && items@[p] == a;
            assert(pairs@[p] == (a, 0i32));
            assert(pairs@.to_multiset().count((a, 0i32)) > 0);
            assert(sorted@.contains((a, 0i32)));
            let k = choose|k: int| 0 <= k < sorted@.len() && sorted@[k] == (a, 0i32);
            assert(sorted@[k].0 == a);
        }
    }
    let ghost keys = sorted@.map_values(|p: (Action, i32)| p.0);
    proof {
        assert forall|x: int, y: int| 0 <= x < y < keys.len() implies (#[trigger] keys[x]).spec_order()
            <= (#[trigger] keys[y]).spec_order() by {
            assert(!crate::search::precedes(sorted@[y], sorted@[x], false, true));
        }
    }
    let mut result: Vec<Action> = Vec::new();
    let ghost mut idx: Seq<int> = Seq::empty();
    let mut k: usize = 0;
    while k < sorted.len()
        invariant
            k <= sorted@.len(),
            keys == sorted@.map_values(|p: (Action, i32)| p.0),
            in_action_order(keys),
            in_action_order(result@),
            no_adjacent_repeat(result@),
            idx.len() == result@.len(),
            forall|m: int| 0 <= m < idx.len() ==> 0 <= #[trigger] idx[m] < k && result@[m] == keys[idx[m]],
            forall|n: int| 0 <= n < k ==> result@.contains(#[trigger] keys[n]),
            k > 0 ==> result@.len() > 0 && result@.last() == keys[k - 1],
            k == 0 ==> result@.len() == 0,
        decreases sorted@.len() - k,
    {
        let action = sorted[k].0;
        assert(action == keys[k as int]);
        let ghost before = result@;
        if result.len() == 0 || result[result.len() - 1] != action {
            proof {
                assert forall|m: int| 0 <= m < before.len() implies (#[trigger] before[m]).spec_order()
                    <= action.spec_order() by {
                    assert(before[m] == keys[idx[m]]);
                    assert(idx[m] < k);
                }
            }
            result.push(action);
            proof {
                idx = idx.push(k as int);
                assert forall|n: int| 0 <= n < k + 1 implies result@.contains(#[trigger] keys[n]) by {
                    if n < k {
                        let m = choose|m: int| 0 <= m < before.len() && before[m] == keys[n];
                        assert(result@[m] == keys[n]);
                    } else {
                        assert(result@[before.len() as int] == keys[n]);
                    }
                }
            }
        } else {
            proof {
                assert forall|n: int| 0 <= n < k + 1 implies result@.contains(#[trigger] keys[n]) by {
                    if n == k {
                        assert(result@[result@.len() - 1] == keys[n]);
                    }
                }
            }
        }
        k = k + 1;
    }
    proof {
        assert forall|a: Action| result@.contains(a) <==> items@.contains(a) by {
            if result@.contains(a) {
                let m = choose|m: int| 0 <= m < result@.len() && result@[m] == a;
                assert(result@[m] == keys[idx[m]]);
                assert(keys[idx[m]] == sorted@[idx[m]].0);
            }
            if items@.contains(a) {
                let n = choose|n: int| 0 <= n < sorted@.len() && (#[trigger] sorted@[n]).0 == a;
                assert(keys[n] == a);
            }
        }
    }
    result
}

/// `a` carries a winning label in `values`.
pub open spec fn labelled_win(values: Seq<GoldenActionValue>, a: Action) -> bool {
    exists|i: int| 0 <= i < values.len() && (#[trigger] values[i]).outcome == Some(GoldenOutcome::Win)
        && values[i].action == a
}

/// The proven winning moves of a row that are legal in its position, in
/// action order, each listed once in a row.
pub fn proven_actions(values: &Vec<GoldenActionValue>, legal: &Vec<Action>) -> (r: Vec<Action>)
    ensures
        forall|a: Action| r@.contains(a) <==> labelled_win(values@, a) && legal@.contains(a),
        in_action_order(r@),
        no_adjacent_repeat(r@),
{
    let mut wins: Vec<Action> = Vec::new();
    let mut i: usize = 0;
    while i < values.len()
        invariant
            i <= values@.len(),
            forall|k: int| 0 <= k < wins@.len() ==> labelled_win(values@, #[trigger] wins@[k])
                && legal@.contains(wins@[k]),
            forall|k: int|
                0 <= k < i && (#[trigger] values@[k]).outcome == Some(GoldenOutcome::Win) && legal@.contains(
                    values@[k].action,
                ) ==> wins@.contains(values@[k].action),
        decreases values@.len() - i,
    {
        let value = values[i];
        let ghost before = wins@;
        if value.outcome == Some(GoldenOutcome::Win) && contains_action(legal, value.action) {
            wins.push(value.action);
            proof {
                assert(labelled_win(values@, value.action));
            }
        }
        proof {
            assert forall|k: int|
                0 <= k < i + 1 && (#[trigger] values@[k]).outcome == Some(GoldenOutcome::Win) && legal@.contains(
                    values@[k].action,
                ) implies wins@.contains(values@[k].action) by {
                if k < i {
                    let w = choose|w: int| 0 <= w < before.len() && before[w] == values@[k].action;
                    assert(wins@[w] == values@[k].action);
                } else {
                    assert(wins@[wins@.len() - 1] == values@[k].action);
                }
            }
        }
        i = i + 1;
    }
    let r = sorted_unique(&wins);
    proof {
        assert forall|a: Action| labelled_win(values@, a) && legal@.contains(a) implies wins@.contains(a) by {
            let k = choose|k: int| 0 <= k < values@.len() && (#[trigger] values@[k]).outcome == Some(
                GoldenOutcome::Win,
            ) && values@[k].action == a;
        }
        assert forall|a: Action| wins@.contains(a) implies labelled_win(values@, a) && legal@.contains(a) by {
            let k = choose|k: int| 0 <= k < wins@.len() && wins@[k] == a;
        }
    }
    r
}

/// The outcome whose labels an urgency target follows: a win is chased by
/// its fastest winning moves, a loss delayed by its slowest losing moves,
/// and a draw has no urgency.
pub open spec fn urgency_outcome(outcome: GoldenOutcome) -> Option<GoldenOutcome> {
    match outcome {
        GoldenOutcome::Win => Some(GoldenOutcome::Win),
        GoldenOutcome::Loss => Some(GoldenOutcome::Loss),
        GoldenOutcome::Draw => None,
    }
}

/// A label of the wanted outcome that carries a distance.
pub open spec fn urgency_candidate(value: GoldenActionValue, desired: GoldenOutcome) -> bool {
    value.outcome == Some(desired) && value.distance is Some
}

/// Some label of `values` is a candidate.
pub open spec fn has_candidate(values: Seq<GoldenActionValue>, desired: GoldenOutcome) -> bool {
    exists|i: int| 0 <= i < values.len() && urgency_candidate(#[trigger] values[i], desired)
}

/// `distance` is a candidate's distance, and no candidate is more urgent:
/// none shorter for a win, none longer for a loss.
pub open spec fn urgent_distance(values: Seq<GoldenActionValue>, desired: GoldenOutcome, distance: u16) -> bool {
    &&& exists|i: int|
        0 <= i < values.len() && urgency_candidate(#[trigger] values[i], desired) && values[i].distance == Some(
            distance,
        )
    &&& forall|i: int|
        0 <= i < values.len() && urgency_candidate(#[trigger] values[i], desired) ==> if desired
            == GoldenOutcome::Win {
            distance <= values[i].distance.unwrap()
        } else {
            distance >= values[i].distance.unwrap()
        }
}

/// `a` is a candidate's move at exactly `distance`.
pub open spec fn urgent_move(values: Seq<GoldenActionValue>, desired: GoldenOutcome, distance: u16, a: Action) -> bool {
    exists|i: int|
        0 <= i < values.len() && urgency_candidate(#[trigger] values[i], desired) && values[i].distance == Some(
            distance,
        ) && values[i].action == a
}

/// The urgency target of a decided row: the moves that win fastest, or
/// lose slowest, with that distance; none for a draw or when no label of
/// the row's outcome carries a distance.
pub fn urgency_targets(outcome: GoldenOutcome, values: &Vec<GoldenActionValue>) -> (r: Option<(Vec<Action>, u16)>)
    ensures
        match urgency_outcome(outcome) {
            None => r is None,
            Some(desired) => {
                &&& r is None <==> !has_candidate(values@, desired)
                &&& r matches Some((actions, distance)) ==> {
                    &&& urgent_distance(values@, desired, distance)
                    &&& forall|a: Action| actions@.contains(a) <==> urgent_move(values@, desired, distance, a)
                    &&& in_action_order(actions@)
                    &&& no_adjacent_repeat(actions@)
                }
            },
        },
{
    let desired = match outcome {
        GoldenOutcome::Win => GoldenOutcome::Win,
        GoldenOutcome::Loss => GoldenOutcome::Loss,
        GoldenOutcome::Draw => {
            return None;
        },
    };
    let mut best: Option<u16> = None;
    let mut i: usize = 0;
    while i < values.len()
        invariant
            i <= values@.len(),
            urgency_outcome(outcome) == Some(desired),
            best is None <==> forall|k: int| 0 <= k < i ==> !urgency_candidate(#[trigger] values@[k], desired),
            best matches Some(d) ==> {
                &&& exists|k: int|
                    0 <= k < i && urgency_candidate(#[trigger] values@[k], desired) && values@[k].distance == Some(d)
                &&& forall|k: int|
                    0 <= k < i && urgency_candidate(#[trigger] values@[k], desired) ==> if desired
                        == GoldenOutcome::Win {
                        d <= values@[k].distance.unwrap()
                    } else {
                        d >= values@[k].distance.unwrap()
                    }
            },
        decreases values@.len() - i,
    {
        let value = values[i];
        if value.outcome == Some(desired) {
            if let Some(distance) = value.distance {
                let better = match best {
                    None => true,
                    Some(current) => if desired == GoldenOutcome::Win {
                        distance < current
                    } else {
                        distance > current
                    },
                };
                if better {
                    best = Some(distance);
                }
            }
        }
        i = i + 1;
    }
    let distance = match best {
        None => {
            return None;
        },
        Some(d) => d,
    };
    let mut chosen: Vec<Action> = Vec::new();
    let mut j: usize = 0;
    while j < values.len()
        invariant
            j <= values@.len(),
            forall|k: int| 0 <= k < chosen@.len() ==> urgent_move(values@, desired, distance, #[trigger] chosen@[k]),
            forall|k: int|
                0 <= k < j && urgency_candidate(#[trigger] values@[k], desired) && values@[k].distance == Some(
                    distance,
                ) ==> chosen@.contains(values@[k].action),
        decreases values@.len() - j,
    {
        let value = values[j];
        let ghost before = chosen@;
        if value.outcome == Some(desired) && value.distance == Some(distance) {
            chosen.push(value.action);
            proof {
                assert(urgency_candidate(values@[j as int], desired));
            }
        }
        proof {
            assert forall|k: int|
                0 <= k < j + 1 && urgency_candidate(#[trigger] values@[k], desired) && values@[k].distance == Some(
                    distance,
                ) implies chosen@.contains(values@[k].action) by {
                if k < j {
                    let w = choose|w: int| 0 <= w < before.len() && before[w] == values@[k].action;
                    assert(chosen@[w] == values@[k].action);
                } else {
                    assert(chosen@[chosen@.len() - 1] == values@[k].action);
                }
            }
        }
        j = j + 1;
    }
    let actions = sorted_unique(&chosen);
    proof {
        assert forall|a: Action| chosen@.contains(a) <==> urgent_move(values@, desired, distance, a) by {
            if urgent_move(values@, desired, distance, a) {
                let k = choose|k: int|
                    0 <= k < values@.len() && urgency_candidate(#[trigger] values@[k], desired)
                        && values@[k].distance == Some(distance) && values@[k].action == a;
            }
            if chosen@.contains(a) {
                let k = choose|k: int| 0 <= k < chosen@.len() && chosen@[k] == a;
            }
        }
    }
    Some((actions, distance))
}

/// A move after which the opponent has no win at once.
pub open spec fn threat_free(state: GameState) -> spec_fn(Action) -> bool {
    |a: Action| !opens_win(state, state.turn, a)
}

/// The legal moves that leave the opponent no win at once, in legal order.
pub open spec fn blocking_moves(state: GameState) -> Seq<Action> {
    state.spec_legal_actions().filter(threat_free(state))
}

/// The forced-block target of a position: the legal moves that leave the
/// opponent no immediate win, when some but not all moves do; none when
/// every move is safe or none is.
pub fn forced_block_actions(state: GameState) -> (r: Option<Vec<Action>>)
    requires
        lookahead_ready(state),
    ensures
        r is Some <==> 0 < blocking_moves(state).len() < state.spec_legal_actions().len(),
        r matches Some(safe) ==> safe@ == blocking_moves(state),
{
    let legal = state.legal_actions();
    let ghost pred = threat_free(state);
    let mut safe: Vec<Action> = Vec::new();
    let mut i: usize = 0;
    while i < legal.len()
        invariant
            lookahead_ready(state),
            legal@ == state.spec_legal_actions(),
            pred == threat_free(state),
            i <= legal@.len(),
            safe@ == legal@.take(i as int).filter(pred),
        decreases legal@.len() - i,
    {
        proof {
            assert(legal@.take(i as int + 1) =~= legal@.take(i as int).push(legal@[i as int]));
            legal@.take(i as int).lemma_filter_push(legal@[i as int], pred);
            assert(legal@.contains(legal@[i as int]));
        }
        if !opens_win_exec(state, state.turn, legal[i]) {
            safe.push(legal[i]);
        }
        i = i + 1;
    }
    proof {
        assert(legal@.take(legal@.len() as int) =~= legal@);
        legal@.filter_lemma(pred);
    }
    if safe.len() < legal.len() && safe.len() > 0 {
        Some(safe)
    } else {
        None
    }
}

/// How a searched move fares against a row's exact labels.
#[derive(Clone, Copy, Debug, PartialEq, Eq, Structural)]
pub struct SelectionVerdict {
    /// The search chose a legal move.
    pub selected_legal: bool,
    /// The chosen move is one of the proven winning moves.
    pub matched_proven: bool,
    /// The chosen move is legal and wins the game at once.
    pub terminal_win: bool,
}

/// Judge the move a search selected in `state` against the proven moves.
pub fn judge_selection(state: GameState, proven: &Vec<Action>, selected: Option<Action>) -> (r: SelectionVerdict)
    requires
        playable(state),
    ensures
        r.selected_legal == (selected matches Some(a) && state.spec_legal_actions().contains(a)),
        r.matched_proven == (selected matches Some(a) && proven@.contains(a)),
        r.terminal_win == (selected matches Some(a) && state.spec_legal_actions().contains(a)
            && wins_at_once(state, a)),
{
    match selected {
        None => SelectionVerdict { selected_legal: false, matched_proven: false, terminal_win: false },
        Some(action) => {
            let legal = state.legal_actions();
            let selected_legal = contains_action(&legal, action);
            let matched_proven = contains_action(proven, action);
            let terminal_win = selected_legal && state.apply_legal(action).state.winner == Some(state.turn);
            SelectionVerdict { selected_legal, matched_proven, terminal_win }
        },
    }
}

/// The policy target of one archived position: the move to learn, with its
/// score, nodes, completed depth, whether the golden book gave it, and the
/// independent root rankings computed beside it.
pub struct PolicyTarget {
    pub action: Action,
    pub score: i32,
    pub nodes: u64,
    pub completed_depth: u8,
    pub golden: bool,
    pub rankings: Vec<MoveEvaluation>,
}

/// Every table of the lookup, if any, is sorted.
pub open spec fn golden_sorted(golden: Option<&MemoryGoldenLookup>) -> bool {
    match golden {
        Some(g) => g.sorted(),
        None => true,
    }
}

/// The move a sorted golden lookup proves for `state`.
pub open spec fn golden_proves(golden: Option<&MemoryGoldenLookup>, state: GameState) -> Option<Action> {
    match golden {
        Some(g) => if g.sorted() {
            g.proven(state)
        } else {
            None
        },
        None => None,
    }
}

/// The configuration the root rankings search with: the ranking node budget.
pub open spec fn ranking_config(config: SearchConfig, rank_nodes: u64) -> SearchConfig {
    SearchConfig { max_nodes: rank_nodes, ..config }
}

proof fn lemma_least_winning_legal(values: Seq<GoldenActionValue>, legal: Seq<Action>, n: nat)
    requires
        n <= values.len(),
    ensures
        least_winning_action(values, legal, n) matches Some(a) ==> legal.contains(a),
    decreases n,
{
    if n > 0 {
        lemma_least_winning_legal(values, legal, (n - 1) as nat);
    }
}

proof fn lemma_book_proven_legal(rows: Seq<crate::golden_book::BookRowView>, board_size: u8, state: GameState)
    ensures
        book_proven_action(rows, board_size, state) matches Some(a) ==> state.spec_legal_actions().contains(a),
{
    if state.spec_legal_actions().len() > 0 {
        match crate::golden_book::book_action_values(rows, board_size, state) {
            Some(values) => lemma_least_winning_legal(values, state.spec_legal_actions(), values.len()),
            None => {},
        }
    }
}

/// The one-hot policy target of an archived position: the golden book's
/// proven move where it has one; else the best independent ranking when
/// rankings were asked for; else the tactical-filter search, the golden
/// search or the plain search, falling back to the archived move. The
/// archived move must be legal.
pub fn policy_target(
    state: GameState,
    archived: Action,
    config: SearchConfig,
    rank_actions: usize,
    rank_nodes: u64,
    tactical_filter: bool,
    golden: Option<&MemoryGoldenLookup>,
) -> (r: Result<PolicyTarget, String>)
    requires
        tactical_ready(state, config),
        rank_actions > 0 ==> tactical_ready(state, ranking_config(config, rank_nodes)),
        golden matches Some(g) ==> g.ready_for(state) && markers_on_board(state),
    ensures
        r is Err <==> !state.spec_legal_actions().contains(archived),
        r matches Err(e) ==> e@ == "archived action is illegal at ply "@ + decimal_text(state.ply as nat),
        r matches Ok(t) ==> {
            &&& state.spec_legal_actions().contains(t.action)
            &&& t.rankings@.len() <= rank_actions
            &&& forall|i: int| 0 <= i < t.rankings@.len() ==> analysis_ok(
                state,
                ranking_config(config, rank_nodes),
                #[trigger] t.rankings@[i],
            )
            &&& t.golden ==> (golden matches Some(g) && g.actions matches Some(book) && book_proven_action(
                book@,
                book.spec_board_size(),
                state,
            ) == Some(t.action)) && t.score == WIN_SCORE && t.nodes == 0 && t.completed_depth == 0
            &&& golden_proves(golden, state) matches Some(a) ==> t.golden && t.action == a
            &&& golden_sorted(golden) && !t.golden ==> golden_proves(golden, state) == None::<Action>
            &&& !t.golden && t.rankings@.len() > 0 ==> t.action == t.rankings@[0].action && t.score
                == t.rankings@[0].score && t.nodes == t.rankings@[0].nodes && t.completed_depth
                == t.rankings@[0].completed_depth
            &&& !t.golden && t.rankings@.len() == 0 ==> t.nodes <= config.max_nodes && t.completed_depth
                <= config.depth && NEG_INF < t.score < POS_INF
            &&& rank_actions > 0 && state.spec_legal_actions().len() > 0 ==> t.rankings@.len() > 0
            &&& !t.golden && rank_actions == 0 && !tactical_filter && config.depth > 0 && t.nodes
                < config.max_nodes ==> root_best(state, config, false, config.depth as nat, t.action, t.score as int)
        },
{
    let legal = state.legal_actions();
    if !contains_action(&legal, archived) {
        return Err(String::from_str("archived action is illegal at ply ").concat(
            decimal_string_u64(state.ply as u64).as_str(),
        ));
    }
    let rankings = if rank_actions == 0 {
        Vec::new()
    } else {
        independent_rankings(state, SearchConfig { max_nodes: rank_nodes, ..config }, rank_actions, tactical_filter)
    };
    let golden_action = match golden {
        Some(g) => g.proven_action(state),
        None => None,
    };
    match golden_action {
        Some(target) => {
            proof {
                let book = golden.unwrap().actions.unwrap();
                lemma_book_proven_legal(book@, book.spec_board_size(), state);
            }
            Ok(PolicyTarget { action: target, score: WIN_SCORE, nodes: 0, completed_depth: 0, golden: true, rankings })
        },
        None => {
            if rankings.len() > 0 {
                let best = rankings[0];
                Ok(
                    PolicyTarget {
                        action: best.action,
                        score: best.score,
                        nodes: best.nodes,
                        completed_depth: best.completed_depth,
                        golden: false,
                        rankings,
                    },
                )
            } else {
                let result = if tactical_filter {
                    search_best_action_with_tactical_filter(state, config)
                } else {
                    match golden {
                        Some(g) => search_best_action_with_golden(state, config, g),
                        None => search_best_action(state, config),
                    }
                };
                proof {
                    if golden is Some && golden.unwrap().actions is Some {
                        let book = golden.unwrap().actions.unwrap();
                        lemma_book_proven_legal(book@, book.spec_board_size(), state);
                    }
                }
                let action = match result.action {
                    Some(a) => a,
                    None => archived,
                };
                Ok(
                    PolicyTarget {
                        action,
                        score: result.score,
                        nodes: result.nodes,
                        completed_depth: result.completed_depth,
                        golden: false,
                        rankings,
                    },
                )
            }
        },
    }
}

} // verus!
