//! Promotion of solved ring rows: a row's position, its canonical key, the
//! legal edges to its children and the children's exact values are checked
//! against each other before the row may join the golden data.

use vstd::prelude::*;

use crate::bitboard::{has_bit, lemma_has_bit_and};
use crate::frontier::{lemma_full_board_bits, lemma_markers_kept};
use crate::golden::{
    action_on_board, canonical_key, canonical_key_of, canonical_position_key, cell_count, codec_size,
    lemma_least_key_upto, lemma_transformed_square_on_board, least_key_upto, markers_on_board, transform_action,
    transform_position, transformed_action, transformed_square, transformed_state, GoldenOutcome,
};
use crate::ground_truth::GroundTruthOutcome;
use crate::promotion::{action_code, inventory_valid, on_board, spec_action_code, to_golden};
use crate::rules::{law_play_keeps_inventory, lemma_legal_action_shape, Action, GameState};
use crate::search::playable;
use crate::tablebase::{same_key, value_of, RetrogradeValue, RetrogradeValues};
use crate::text::{decimal_string, decimal_string_u64, decimal_text};

verus! {

/// The lower-case hexadecimal digit of `d` (below 16).
pub open spec fn hex_char(d: int) -> char {
    if d < 10 {
        (48 + d) as char
    } else {
        (87 + d) as char
    }
}

/// The lower-case hexadecimal spelling of `bytes`, two digits a byte.
pub open spec fn hex_text(bytes: Seq<u8>) -> Seq<char>
    decreases bytes.len(),
{
    if bytes.len() == 0 {
        Seq::empty()
    } else {
        hex_text(bytes.drop_last()).push(hex_char((bytes.last() / 16) as int)).push(
            hex_char((bytes.last() % 16) as int),
        )
    }
}

/// The one-character string of a hexadecimal digit.
fn hex_digit_text(d: u8) -> (r: &'static str)
    requires
        d < 16,
    ensures
        r@ == seq![hex_char(d as int)],
{
    if d == 0 {
        proof {
            reveal_strlit("0");
        }
        "0"
    } else if d == 1 {
        proof {
            reveal_strlit("1");
        }
        "1"
    } else if d == 2 {
        proof {
            reveal_strlit("2");
        }
        "2"
    } else if d == 3 {
        proof {
            reveal_strlit("3");
        }
        "3"
    } else if d == 4 {
        proof {
            reveal_strlit("4");
        }
        "4"
    } else if d == 5 {
        proof {
            reveal_strlit("5");
        }
        "5"
    } else if d == 6 {
        proof {
            reveal_strlit("6");
        }
        "6"
    } else if d == 7 {
        proof {
            reveal_strlit("7");
        }
        "7"
    } else if d == 8 {
        proof {
            reveal_strlit("8");
        }
        "8"
    } else if d == 9 {
        proof {
            reveal_strlit("9");
        }
        "9"
    } else if d == 10 {
        proof {
            reveal_strlit("a");
        }
        "a"
    } else if d == 11 {
        proof {
            reveal_strlit("b");
        }
        "b"
    } else if d == 12 {
        proof {
            reveal_strlit("c");
        }
        "c"
    } else if d == 13 {
        proof {
            reveal_strlit("d");
        }
        "d"
    } else if d == 14 {
        proof {
            reveal_strlit("e");
        }
        "e"
    } else {
        proof {
            reveal_strlit("f");
        }
        "f"
    }
}


/// The lower-case hexadecimal spelling of a key.
pub fn hex_key(bytes: &[u8]) -> (r: String)
    ensures
        r@ == hex_text(bytes@),
{
    proof {
        reveal_strlit("");
    }
    let mut text = String::from_str("");
    let mut i: usize = 0;
    while i < bytes.len()
        invariant
            i <= bytes@.len(),
            text@ == hex_text(bytes@.take(i as int)),
        decreases bytes@.len() - i,
    {
        let byte = bytes[i];
        text = text.concat(hex_digit_text(byte / 16)).concat(hex_digit_text(byte % 16));
        proof {
            assert(bytes@.take(i as int + 1).drop_last() =~= bytes@.take(i as int));
        }
        i = i + 1;
    }
    proof {
        assert(bytes@.take(bytes@.len() as int) =~= bytes@);
    }
    text
}

/// The hexadecimal canonical key of a position.
pub open spec fn key_text(state: GameState) -> Seq<char> {
    hex_text(canonical_key_of(state))
}

/// A row's edges, each an action and the key text of the child it names.
pub open spec fn edge_texts(edges: Seq<(Action, String)>) -> Seq<(Action, Seq<char>)> {
    edges.map_values(|edge: (Action, String)| (edge.0, edge.1@))
}

/// Two edges share an action number.
pub open spec fn repeats_code(edges: Seq<(Action, Seq<char>)>) -> bool {
    exists|i: int, j: int|
        0 <= i < j < edges.len() && spec_action_code(#[trigger] edges[i].0) == spec_action_code(
            #[trigger] edges[j].0,
        )
}

/// The edges' actions are exactly the legal actions of `state`.
pub open spec fn covers_legal(state: GameState, edges: Seq<(Action, Seq<char>)>) -> bool {
    &&& forall|a: Action|
        #[trigger] state.spec_legal_actions().contains(a) ==> exists|i: int|
            0 <= i < edges.len() && (#[trigger] edges[i]).0 == a
    &&& forall|i: int| 0 <= i < edges.len() ==> state.spec_legal_actions().contains(#[trigger] edges[i].0)
}

/// Some edge names the child `name`.
pub open spec fn names_child(edges: Seq<(Action, Seq<char>)>, name: Seq<char>) -> bool {
    exists|i: int| 0 <= i < edges.len() && (#[trigger] edges[i]).1 == name
}

/// The listed children are exactly the children that the edges name.
pub open spec fn children_match(edges: Seq<(Action, Seq<char>)>, children: Seq<Seq<char>>) -> bool {
    &&& forall|k: int| 0 <= k < children.len() ==> names_child(edges, #[trigger] children[k])
    &&& forall|i: int| 0 <= i < edges.len() ==> children.contains(#[trigger] edges[i].1)
}

/// The edge's action leads to the child it names.
pub open spec fn replays(state: GameState, edge: (Action, Seq<char>)) -> bool {
    edge.1 == key_text(state.spec_apply(edge.0).state)
}

/// The edge names the wrong child, or a child with no exact value.
pub open spec fn edge_fails(
    state: GameState,
    edge: (Action, Seq<char>),
    values: Seq<(Seq<char>, RetrogradeValue)>,
) -> bool {
    !replays(state, edge) || value_of(values, edge.1) is None
}

/// What is wrong with a failing edge.
pub open spec fn edge_problem(
    state: GameState,
    edge: (Action, Seq<char>),
    values: Seq<(Seq<char>, RetrogradeValue)>,
) -> Seq<char> {
    if !replays(state, edge) {
        "action code "@ + decimal_text(spec_action_code(edge.0) as nat)
            + " does not replay to its child key"@
    } else {
        "child "@ + edge.1 + " is not an exact inner value"@
    }
}

/// The failing edge with the lowest action number.
pub open spec fn first_failing(
    state: GameState,
    edges: Seq<(Action, Seq<char>)>,
    values: Seq<(Seq<char>, RetrogradeValue)>,
) -> int {
    choose|i: int|
        0 <= i < edges.len() && edge_fails(state, edges[i], values) && forall|k: int|
            0 <= k < edges.len() && spec_action_code(edges[k].0) < spec_action_code(edges[i].0)
                ==> !edge_fails(state, #[trigger] edges[k], values)
}

/// A child's value seen from the parent: the outcome negated, one ply
/// further away (saturating).
pub open spec fn labelled(value: RetrogradeValue) -> RetrogradeValue {
    RetrogradeValue {
        outcome: value.outcome.negated(),
        distance: match value.distance {
            Some(d) => Some(
                if d < u16::MAX {
                    (d + 1) as u16
                } else {
                    d
                },
            ),
            None => None,
        },
    }
}

/// The parent's view of the value of an edge's child.
pub open spec fn edge_label(edge: (Action, Seq<char>), values: Seq<(Seq<char>, RetrogradeValue)>) -> RetrogradeValue {
    labelled(value_of(values, edge.1).unwrap())
}

/// The minimax outcome over the edges: a win if some child is lost, a loss
/// if every child is won, otherwise a draw.
pub open spec fn row_outcome(
    edges: Seq<(Action, Seq<char>)>,
    values: Seq<(Seq<char>, RetrogradeValue)>,
) -> GroundTruthOutcome {
    if exists|i: int|
        0 <= i < edges.len() && edge_label(#[trigger] edges[i], values).outcome == GroundTruthOutcome::Win {
        GroundTruthOutcome::Win
    } else if forall|i: int|
        0 <= i < edges.len() ==> edge_label(#[trigger] edges[i], values).outcome
            == GroundTruthOutcome::Loss {
        GroundTruthOutcome::Loss
    } else {
        GroundTruthOutcome::Draw
    }
}

/// Edge `i` has outcome `outcome` at distance `d`.
pub open spec fn proven_at(
    edges: Seq<(Action, Seq<char>)>,
    values: Seq<(Seq<char>, RetrogradeValue)>,
    outcome: GroundTruthOutcome,
    i: int,
    d: u16,
) -> bool {
    &&& 0 <= i < edges.len()
    &&& edge_label(edges[i], values).outcome == outcome
    &&& edge_label(edges[i], values).distance == Some(d)
}

/// Some edge has outcome `outcome` with a distance.
pub open spec fn has_proven(
    edges: Seq<(Action, Seq<char>)>,
    values: Seq<(Seq<char>, RetrogradeValue)>,
    outcome: GroundTruthOutcome,
) -> bool {
    exists|i: int, d: u16| proven_at(edges, values, outcome, i, d)
}

/// `d` is the quickest win, or the slowest loss, among the edges with that
/// outcome.
pub open spec fn is_best_distance(
    edges: Seq<(Action, Seq<char>)>,
    values: Seq<(Seq<char>, RetrogradeValue)>,
    outcome: GroundTruthOutcome,
    d: u16,
) -> bool {
    &&& exists|i: int| #[trigger] proven_at(edges, values, outcome, i, d)
    &&& forall|j: int, e: u16|
        #[trigger] proven_at(edges, values, outcome, j, e) ==> if outcome == GroundTruthOutcome::Win {
            d <= e
        } else {
            e <= d
        }
}

/// The quickest win, or the slowest loss, among the edges with that outcome.
pub open spec fn best_distance(
    edges: Seq<(Action, Seq<char>)>,
    values: Seq<(Seq<char>, RetrogradeValue)>,
    outcome: GroundTruthOutcome,
) -> u16 {
    choose|d: u16| #[trigger] is_best_distance(edges, values, outcome, d)
}

/// The minimax distance over the edges: none for a draw.
pub open spec fn row_distance(
    edges: Seq<(Action, Seq<char>)>,
    values: Seq<(Seq<char>, RetrogradeValue)>,
) -> Option<u16> {
    let outcome = row_outcome(edges, values);
    if outcome == GroundTruthOutcome::Draw {
        None
    } else {
        Some(best_distance(edges, values, outcome))
    }
}

/// The golden outcome of a known value.
pub open spec fn golden_of(outcome: GroundTruthOutcome) -> GoldenOutcome {
    match outcome {
        GroundTruthOutcome::Loss => GoldenOutcome::Loss,
        GroundTruthOutcome::Draw => GoldenOutcome::Draw,
        _ => GoldenOutcome::Win,
    }
}

/// Symmetry `s` leaves the position's canonical key at `key`.
pub open spec fn symmetry_keeps(state: GameState, key: Seq<char>, s: int) -> bool {
    key_text(transformed_state(state, s)) == key
}

/// The first of the eight symmetries that moves the canonical key.
pub open spec fn first_moving_symmetry(state: GameState, key: Seq<char>) -> int {
    choose|s: int| 0 <= s < 8 && !symmetry_keeps(state, key, s) && forall|t: int|
        0 <= t < s ==> #[trigger] symmetry_keeps(state, key, t)
}

/// The first check that a ring row fails, in the order they are made,
/// or none when the row may be promoted.
#[verifier::opaque]
pub open spec fn ring_row_problem(
    state: GameState,
    key: Seq<char>,
    value: RetrogradeValue,
    edges: Seq<(Action, Seq<char>)>,
    children: Seq<Seq<char>>,
    values: Seq<(Seq<char>, RetrogradeValue)>,
    existing: Option<GoldenOutcome>,
) -> Option<Seq<char>> {
    let outcome = row_outcome(edges, values);
    if key != key_text(state) {
        Some("position key is not canonical"@)
    } else if repeats_code(edges) {
        Some("duplicate action edge"@)
    } else if !covers_legal(state, edges) {
        Some("edge graph does not cover the legal action set"@)
    } else if !children_match(edges, children) {
        Some("edge graph children do not match the record"@)
    } else if exists|i: int| 0 <= i < edges.len() && edge_fails(state, #[trigger] edges[i], values) {
        Some(edge_problem(state, edges[first_failing(state, edges, values)], values))
    } else if outcome == GroundTruthOutcome::Win && !has_proven(edges, values, outcome) {
        Some("winning row lacks a proven distance"@)
    } else if outcome == GroundTruthOutcome::Loss && !has_proven(edges, values, outcome) {
        Some("losing row lacks a proven distance"@)
    } else if value.outcome != outcome || value.distance != row_distance(edges, values) {
        Some("solved Ring value disagrees with child minimax"@)
    } else if existing matches Some(g) && g != golden_of(value.outcome) {
        Some("position conflicts with existing golden value"@)
    } else if exists|s: int| 0 <= s < 8 && !#[trigger] symmetry_keeps(state, key, s) {
        Some(
            "symmetry "@ + decimal_text(first_moving_symmetry(state, key) as nat)
                + " changed canonicalization"@,
        )
    } else {
        None
    }
}

/// How many edges carry an action number below `c`.
pub open spec fn codes_below(edges: Seq<(Action, Seq<char>)>, c: int) -> nat
    decreases edges.len(),
{
    if edges.len() == 0 {
        0
    } else {
        codes_below(edges.drop_last(), c) + if spec_action_code(edges.last().0) < c {
            1nat
        } else {
            0nat
        }
    }
}

/// An edge's place in action-number order.
pub open spec fn code_rank(edges: Seq<(Action, Seq<char>)>, i: int) -> nat {
    codes_below(edges, spec_action_code(edges[i].0))
}

/// An edge's labelled action, turned into the canonical orientation.
pub open spec fn oriented(
    state: GameState,
    edge: (Action, Seq<char>),
    values: Seq<(Seq<char>, RetrogradeValue)>,
) -> (Action, RetrogradeValue) {
    (
        transformed_action(edge.0, state.config.board_size as int, least_key_upto(state, 8).1),
        edge_label(edge, values),
    )
}

/// Whether two edges share an action number.
fn repeated_code(edges: &Vec<(Action, String)>) -> (r: bool)
    ensures
        r == repeats_code(edge_texts(edges@)),
{
    let ghost texts = edge_texts(edges@);
    let mut j: usize = 0;
    while j < edges.len()
        invariant
            j <= edges@.len(),
            texts == edge_texts(edges@),
            forall|a: int, b: int|
                0 <= a < b < j ==> spec_action_code(#[trigger] texts[a].0) != spec_action_code(
                    #[trigger] texts[b].0,
                ),
        decreases edges@.len() - j,
    {
        let code = action_code(edges[j].0);
        let mut i: usize = 0;
        while i < j
            invariant
                i <= j < edges@.len(),
                texts == edge_texts(edges@),
                code == spec_action_code(edges@[j as int].0),
                forall|a: int| 0 <= a < i ==> spec_action_code(#[trigger] edges@[a].0) != code,
            decreases j - i,
        {
            if action_code(edges[i].0) == code {
                proof {
                    assert(spec_action_code(texts[i as int].0) == spec_action_code(texts[j as int].0));
                }
                return true;
            }
            i = i + 1;
        }
        proof {
            assert forall|a: int, b: int|
                0 <= a < b < j + 1 implies spec_action_code(#[trigger] texts[a].0)
                != spec_action_code(#[trigger] texts[b].0) by {
                if b == j {
                    assert(texts[a].0 == edges@[a].0);
                }
            }
        }
        j = j + 1;
    }
    false
}

/// Whether `action` is one of the edges' actions.
fn lists_edge_action(edges: &Vec<(Action, String)>, action: Action) -> (r: bool)
    ensures
        r == exists|i: int| 0 <= i < edges@.len() && (#[trigger] edges@[i]).0 == action,
{
    let mut i: usize = 0;
    while i < edges.len()
        invariant
            i <= edges@.len(),
            forall|a: int| 0 <= a < i ==> (#[trigger] edges@[a]).0 != action,
        decreases edges@.len() - i,
    {
        if edges[i].0 == action {
            return true;
        }
        i = i + 1;
    }
    false
}

/// Whether `action` is listed.
fn lists_action(actions: &Vec<Action>, action: Action) -> (r: bool)
    ensures
        r == actions@.contains(action),
{
    let mut i: usize = 0;
    while i < actions.len()
        invariant
            i <= actions@.len(),
            forall|a: int| 0 <= a < i ==> actions@[a] != action,
        decreases actions@.len() - i,
    {
        if actions[i] == action {
            return true;
        }
        i = i + 1;
    }
    false
}

/// Whether the edges' actions are exactly the legal actions.
fn covers(state: GameState, legal: &Vec<Action>, edges: &Vec<(Action, String)>) -> (r: bool)
    requires
        legal@ == state.spec_legal_actions(),
    ensures
        r == covers_legal(state, edge_texts(edges@)),
{
    let ghost texts = edge_texts(edges@);
    let mut i: usize = 0;
    while i < legal.len()
        invariant
            i <= legal@.len(),
            legal@ == state.spec_legal_actions(),
            texts == edge_texts(edges@),
            forall|k: int| 0 <= k < i ==> exists|e: int| 0 <= e < texts.len() && (#[trigger] texts[e]).0 == #[trigger] legal@[k],
        decreases legal@.len() - i,
    {
        if !lists_edge_action(edges, legal[i]) {
            proof {
                assert(state.spec_legal_actions().contains(legal@[i as int]));
                if exists|e: int| 0 <= e < texts.len() && (#[trigger] texts[e]).0 == legal@[i as int] {
                    let e = choose|e: int| 0 <= e < texts.len() && (#[trigger] texts[e]).0 == legal@[i as int];
                    assert(edges@[e].0 == legal@[i as int]);
                }
            }
            return false;
        }
        proof {
            let e = choose|e: int| 0 <= e < edges@.len() && (#[trigger] edges@[e]).0 == legal@[i as int];
            assert(texts[e].0 == legal@[i as int]);
        }
        i = i + 1;
    }
    let mut j: usize = 0;
    while j < edges.len()
        invariant
            j <= edges@.len(),
            legal@ == state.spec_legal_actions(),
            texts == edge_texts(edges@),
            forall|k: int| 0 <= k < j ==> state.spec_legal_actions().contains(#[trigger] texts[k].0),
        decreases edges@.len() - j,
    {
        if !lists_action(legal, edges[j].0) {
            proof {
                assert(texts[j as int].0 == edges@[j as int].0);
            }
            return false;
        }
        j = j + 1;
    }
    proof {
        assert forall|a: Action| #[trigger] state.spec_legal_actions().contains(a) implies exists|e: int|
            0 <= e < texts.len() && (#[trigger] texts[e]).0 == a by {
            let k = choose|k: int| 0 <= k < legal@.len() && legal@[k] == a;
        }
    }
    true
}

/// Whether the listed children are exactly the children the edges name.
fn children_agree(edges: &Vec<(Action, String)>, children: &Vec<String>) -> (r: bool)
    ensures
        r == children_match(edge_texts(edges@), children@.map_values(|c: String| c@)),
{
    let ghost texts = edge_texts(edges@);
    let ghost names = children@.map_values(|c: String| c@);
    let mut k: usize = 0;
    while k < children.len()
        invariant
            k <= children@.len(),
            texts == edge_texts(edges@),
            names == children@.map_values(|c: String| c@),
            names.len() == children@.len(),
            forall|q: int| 0 <= q < k ==> names_child(texts, #[trigger] names[q]),
        decreases children@.len() - k,
    {
        let mut i: usize = 0;
        let mut found = false;
        while i < edges.len()
            invariant
                i <= edges@.len(),
                k < children@.len(),
                texts == edge_texts(edges@),
                names == children@.map_values(|c: String| c@),
                found ==> exists|e: int| 0 <= e < texts.len() && (#[trigger] texts[e]).1 == names[k as int],
                names.len() == children@.len(),
                forall|q: int| 0 <= q < k ==> names_child(texts, #[trigger] names[q]),
                !found ==> forall|e: int| 0 <= e < i ==> (#[trigger] texts[e]).1 != names[k as int],
            decreases edges@.len() - i,
        {
            if !found && same_key(edges[i].1.as_str(), children[k].as_str()) {
                proof {
                    assert(texts[i as int].1 == names[k as int]);
                }
                found = true;
            }
            i = i + 1;
        }
        if !found {
            proof {
                if children_match(texts, names) {
                    let q = k as int;
                    assert(0 <= q < names.len());
                    assert(names_child(texts, names[q]));
                    let e = choose|e: int| 0 <= e < texts.len() && (#[trigger] texts[e]).1 == names[q];
                    assert(texts[e].1 != names[q]);
                }
            }
            return false;
        }
        k = k + 1;
    }
    proof {
        assert(k == children@.len());
        assert forall|q: int| 0 <= q < children@.len() implies names_child(texts, #[trigger] names[q]) by {
            assert(q < k);
        }
    }
    let mut j: usize = 0;
    while j < edges.len()
        invariant
            j <= edges@.len(),
            texts == edge_texts(edges@),
            names == children@.map_values(|c: String| c@),
            names.len() == children@.len(),
            forall|q: int| 0 <= q < j ==> names.contains(#[trigger] texts[q].1),
            forall|q: int| 0 <= q < children@.len() ==> names_child(texts, #[trigger] names[q]),
        decreases edges@.len() - j,
    {
        let mut k2: usize = 0;
        let mut found = false;
        while k2 < children.len()
            invariant
                k2 <= children@.len(),
                j < edges@.len(),
                texts == edge_texts(edges@),
                names == children@.map_values(|c: String| c@),
                found ==> names.contains(texts[j as int].1),
                !found ==> forall|q: int| 0 <= q < k2 ==> names[q] != texts[j as int].1,
            decreases children@.len() - k2,
        {
            if !found && same_key(edges[j].1.as_str(), children[k2].as_str()) {
                proof {
                    assert(names[k2 as int] == texts[j as int].1);
                }
                found = true;
            }
            k2 = k2 + 1;
        }
        if !found {
            proof {
                if children_match(texts, names) {
                    assert(names.contains(texts[j as int].1));
                }
            }
            return false;
        }
        j = j + 1;
    }
    true
}

/// A child's value seen from the parent.
fn label_of(value: RetrogradeValue) -> (r: RetrogradeValue)
    ensures
        r == labelled(value),
{
    RetrogradeValue {
        outcome: value.outcome.negate(),
        distance: match value.distance {
            Some(d) => Some(
                if d < u16::MAX {
                    d + 1
                } else {
                    d
                },
            ),
            None => None,
        },
    }
}

proof fn lemma_best_distance(
    edges: Seq<(Action, Seq<char>)>,
    values: Seq<(Seq<char>, RetrogradeValue)>,
    outcome: GroundTruthOutcome,
    d: u16,
)
    requires
        is_best_distance(edges, values, outcome, d),
    ensures
        best_distance(edges, values, outcome) == d,
{
    let c = best_distance(edges, values, outcome);
    assert(is_best_distance(edges, values, outcome, c));
    let i = choose|i: int| #[trigger] proven_at(edges, values, outcome, i, d);
    let k = choose|k: int| #[trigger] proven_at(edges, values, outcome, k, c);
    assert(proven_at(edges, values, outcome, i, d));
    assert(proven_at(edges, values, outcome, k, c));
}

/// The minimax outcome of the edges and the best distances of their wins
/// and losses; every child must have a value.
fn row_minimax(edges: &Vec<(Action, String)>, child_values: &RetrogradeValues) -> (r: (
    GroundTruthOutcome,
    Option<u16>,
    Option<u16>,
))
    requires
        forall|i: int|
            0 <= i < edges@.len() ==> value_of(child_values@, (#[trigger] edge_texts(edges@)[i]).1) is Some,
    ensures
        r.0 == row_outcome(edge_texts(edges@), child_values@),
        r.1 is Some <==> has_proven(edge_texts(edges@), child_values@, GroundTruthOutcome::Win),
        r.1 matches Some(d) ==> is_best_distance(edge_texts(edges@), child_values@, GroundTruthOutcome::Win, d),
        r.2 is Some <==> has_proven(edge_texts(edges@), child_values@, GroundTruthOutcome::Loss),
        r.2 matches Some(d) ==> is_best_distance(edge_texts(edges@), child_values@, GroundTruthOutcome::Loss, d),
{
    let ghost texts = edge_texts(edges@);
    let ghost values = child_values@;
    let mut any_win = false;
    let mut all_loss = true;
    let mut best_win: Option<u16> = None;
    let mut best_loss: Option<u16> = None;
    let mut i: usize = 0;
    while i < edges.len()
        invariant
            i <= edges@.len(),
            texts == edge_texts(edges@),
            values == child_values@,
            forall|k: int| 0 <= k < edges@.len() ==> value_of(values, (#[trigger] texts[k]).1) is Some,
            any_win == exists|k: int|
                0 <= k < i && edge_label(#[trigger] texts[k], values).outcome == GroundTruthOutcome::Win,
            all_loss == forall|k: int|
                0 <= k < i ==> edge_label(#[trigger] texts[k], values).outcome == GroundTruthOutcome::Loss,
            best_win is Some <==> exists|k: int, d: u16|
                k < i && #[trigger] proven_at(texts, values, GroundTruthOutcome::Win, k, d),
            best_win matches Some(d) ==> (exists|k: int|
                k < i && #[trigger] proven_at(texts, values, GroundTruthOutcome::Win, k, d)) && forall|
                k: int,
                e: u16,
            | k < i && #[trigger] proven_at(texts, values, GroundTruthOutcome::Win, k, e) ==> d <= e,
            best_loss is Some <==> exists|k: int, d: u16|
                k < i && #[trigger] proven_at(texts, values, GroundTruthOutcome::Loss, k, d),
            best_loss matches Some(d) ==> (exists|k: int|
                k < i && #[trigger] proven_at(texts, values, GroundTruthOutcome::Loss, k, d)) && forall|
                k: int,
                e: u16,
            | k < i && #[trigger] proven_at(texts, values, GroundTruthOutcome::Loss, k, e) ==> e <= d,
        decreases edges@.len() - i,
    {
        proof {
            assert(value_of(values, texts[i as int].1) is Some);
        }
        let value = child_values.get(edges[i].1.as_str()).unwrap();
        let label = label_of(value);
        let ghost before_win = best_win;
        let ghost before_loss = best_loss;
        proof {
            assert(label == edge_label(texts[i as int], values));
        }
        let is_win = match label.outcome {
            GroundTruthOutcome::Win => true,
            _ => false,
        };
        let is_loss = match label.outcome {
            GroundTruthOutcome::Loss => true,
            _ => false,
        };
        if is_win {
            any_win = true;
        }
        if !is_loss {
            all_loss = false;
        }
        match label.distance {
            Some(d) => {
                if is_win {
                    best_win = match best_win {
                        Some(b) => Some(if d < b { d } else { b }),
                        None => Some(d),
                    };
                }
                if is_loss {
                    best_loss = match best_loss {
                        Some(b) => Some(if d > b { d } else { b }),
                        None => Some(d),
                    };
                }
                proof {
                    assert(proven_at(texts, values, label.outcome, i as int, d));
                }
            },
            None => {},
        }
        proof {
            let n = i as int;
            assert forall|k: int, e: u16|
                #[trigger] proven_at(texts, values, GroundTruthOutcome::Win, k, e) && k == n implies label.outcome
                == GroundTruthOutcome::Win && label.distance == Some(e) by {}
            assert forall|k: int, e: u16|
                #[trigger] proven_at(texts, values, GroundTruthOutcome::Loss, k, e) && k == n implies label.outcome
                == GroundTruthOutcome::Loss && label.distance == Some(e) by {}
            if label.outcome == GroundTruthOutcome::Win {
                assert(edge_label(texts[n], values).outcome == GroundTruthOutcome::Win);
            } else {
                assert forall|k: int|
                    0 <= k < n + 1 && edge_label(#[trigger] texts[k], values).outcome
                        == GroundTruthOutcome::Win implies k < n by {}
            }
            assert(any_win == exists|k: int|
                0 <= k < n + 1 && edge_label(#[trigger] texts[k], values).outcome == GroundTruthOutcome::Win);
            if label.outcome == GroundTruthOutcome::Loss && label.distance is Some {
                assert(proven_at(texts, values, GroundTruthOutcome::Loss, n, label.distance->0));
            }
            if label.outcome == GroundTruthOutcome::Win && label.distance is Some {
                assert(proven_at(texts, values, GroundTruthOutcome::Win, n, label.distance->0));
            }
            assert(all_loss == forall|k: int|
                0 <= k < n + 1 ==> edge_label(#[trigger] texts[k], values).outcome == GroundTruthOutcome::Loss);
        }
        i = i + 1;
    }
    proof {
        if let Some(d) = best_win {
            assert(is_best_distance(texts, values, GroundTruthOutcome::Win, d));
        }
        if let Some(d) = best_loss {
            assert(is_best_distance(texts, values, GroundTruthOutcome::Loss, d));
        }
    }
    let outcome = if any_win {
        GroundTruthOutcome::Win
    } else if all_loss {
        GroundTruthOutcome::Loss
    } else {
        GroundTruthOutcome::Draw
    };
    (outcome, best_win, best_loss)
}

/// Two outcomes are the same.
fn same_outcome(a: GroundTruthOutcome, b: GroundTruthOutcome) -> (r: bool)
    ensures
        r == (a == b),
{
    match (a, b) {
        (GroundTruthOutcome::Loss, GroundTruthOutcome::Loss) => true,
        (GroundTruthOutcome::Draw, GroundTruthOutcome::Draw) => true,
        (GroundTruthOutcome::Win, GroundTruthOutcome::Win) => true,
        (GroundTruthOutcome::Unknown, GroundTruthOutcome::Unknown) => true,
        _ => false,
    }
}

/// Two golden outcomes are the same.
fn same_golden(a: GoldenOutcome, b: GoldenOutcome) -> (r: bool)
    ensures
        r == (a == b),
{
    match (a, b) {
        (GoldenOutcome::Loss, GoldenOutcome::Loss) => true,
        (GoldenOutcome::Draw, GoldenOutcome::Draw) => true,
        (GoldenOutcome::Win, GoldenOutcome::Win) => true,
        _ => false,
    }
}

/// Two optional distances are the same.
fn same_distance(a: Option<u16>, b: Option<u16>) -> (r: bool)
    ensures
        r == (a == b),
{
    match (a, b) {
        (Some(x), Some(y)) => x == y,
        (None, None) => true,
        _ => false,
    }
}

proof fn lemma_transformed_markers(state: GameState, s: int)
    requires
        3 <= state.config.board_size <= 8,
        markers_on_board(state),
        0 <= s < 8,
    ensures
        markers_on_board(transformed_state(state, s)),
        transformed_state(state, s).config == state.config,
{
    let size = state.config.board_size as int;
    assert(size * size <= 64) by (nonlinear_arith)
        requires
            size <= 8,
            size >= 3,
    ;
    if let Some(q) = state.last_relocated_to[0] {
        lemma_transformed_square_on_board(size, q as int, s);
    }
    if let Some(q) = state.last_relocated_to[1] {
        lemma_transformed_square_on_board(size, q as int, s);
    }
}

/// The first symmetry that moves the canonical key off `key`, if any.
fn moving_symmetry(state: GameState, key: &str) -> (r: Option<u8>)
    requires
        codec_size(state.config.board_size as int),
        markers_on_board(state),
    ensures
        r is None <==> forall|s: int| 0 <= s < 8 ==> #[trigger] symmetry_keeps(state, key@, s),
        r matches Some(s) ==> s == first_moving_symmetry(state, key@),
{
    let mut s: u8 = 0;
    while s < 8
        invariant
            s <= 8,
            codec_size(state.config.board_size as int),
            markers_on_board(state),
            forall|t: int| 0 <= t < s ==> #[trigger] symmetry_keeps(state, key@, t),
        decreases 8 - s,
    {
        proof {
            lemma_transformed_markers(state, s as int);
        }
        let turned = transform_position(state, s);
        let text = hex_key(canonical_position_key(turned).as_slice());
        if !same_key(text.as_str(), key) {
            proof {
                let f = first_moving_symmetry(state, key@);
                assert(!symmetry_keeps(state, key@, s as int));
                assert(0 <= f < 8 && !symmetry_keeps(state, key@, f) && forall|t: int|
                    0 <= t < f ==> #[trigger] symmetry_keeps(state, key@, t));
                if f < s {
                    assert(symmetry_keeps(state, key@, f));
                } else if f > s {
                    assert(symmetry_keeps(state, key@, s as int));
                }
            }
            return Some(s);
        }
        s = s + 1;
    }
    None
}

proof fn lemma_prefix_distinct(edges: Seq<(Action, Seq<char>)>)
    requires
        edges.len() > 0,
        !repeats_code(edges),
    ensures
        !repeats_code(edges.drop_last()),
{
    let p = edges.drop_last();
    if repeats_code(p) {
        let (i, j) = choose|i: int, j: int|
            0 <= i < j < p.len() && spec_action_code(#[trigger] p[i].0) == spec_action_code(#[trigger] p[j].0);
        assert(p[i] == edges[i] && p[j] == edges[j]);
        assert(spec_action_code(edges[i].0) == spec_action_code(edges[j].0));
    }
}

/// Counting the edges below `c + 1` adds the one edge numbered `c`, if any.
proof fn lemma_codes_below_step(edges: Seq<(Action, Seq<char>)>, c: int, j: int)
    requires
        !repeats_code(edges),
        0 <= j < edges.len(),
        spec_action_code(edges[j].0) == c,
    ensures
        codes_below(edges, c + 1) == codes_below(edges, c) + 1,
    decreases edges.len(),
{
    let p = edges.drop_last();
    lemma_prefix_distinct(edges);
    if j == edges.len() - 1 {
        lemma_codes_below_absent(p, c);
    } else {
        assert(p[j] == edges[j]);
        lemma_codes_below_step(p, c, j);
        if spec_action_code(edges.last().0) == c {
            assert(spec_action_code(edges[j].0) == spec_action_code(edges[edges.len() - 1].0));
        }
    }
}

/// Counting the edges below `c + 1` adds nothing when no edge is numbered `c`.
proof fn lemma_codes_below_absent(edges: Seq<(Action, Seq<char>)>, c: int)
    requires
        forall|i: int| 0 <= i < edges.len() ==> spec_action_code(#[trigger] edges[i].0) != c,
    ensures
        codes_below(edges, c + 1) == codes_below(edges, c),
    decreases edges.len(),
{
    if edges.len() > 0 {
        let p = edges.drop_last();
        assert forall|i: int| 0 <= i < p.len() implies spec_action_code(#[trigger] p[i].0) != c by {
            assert(p[i] == edges[i]);
        }
        lemma_codes_below_absent(p, c);
        assert(spec_action_code(edges[edges.len() - 1].0) != c);
    }
}

proof fn lemma_codes_below_zero(edges: Seq<(Action, Seq<char>)>)
    ensures
        codes_below(edges, 0) == 0,
    decreases edges.len(),
{
    if edges.len() > 0 {
        lemma_codes_below_zero(edges.drop_last());
    }
}

/// Every edge numbered below `c` is counted: the count is the length.
proof fn lemma_codes_below_all(edges: Seq<(Action, Seq<char>)>, c: int)
    requires
        forall|i: int| 0 <= i < edges.len() ==> spec_action_code(#[trigger] edges[i].0) < c,
    ensures
        codes_below(edges, c) == edges.len(),
    decreases edges.len(),
{
    if edges.len() > 0 {
        let p = edges.drop_last();
        assert forall|i: int| 0 <= i < p.len() implies spec_action_code(#[trigger] p[i].0) < c by {
            assert(p[i] == edges[i]);
        }
        lemma_codes_below_all(p, c);
        assert(spec_action_code(edges[edges.len() - 1].0) < c);
    }
}

/// The failing edge with the lowest number is the one found first.
proof fn lemma_first_failing(
    state: GameState,
    edges: Seq<(Action, Seq<char>)>,
    values: Seq<(Seq<char>, RetrogradeValue)>,
    j: int,
)
    requires
        !repeats_code(edges),
        0 <= j < edges.len(),
        edge_fails(state, edges[j], values),
        forall|k: int|
            0 <= k < edges.len() && spec_action_code(edges[k].0) < spec_action_code(edges[j].0)
                ==> !edge_fails(state, #[trigger] edges[k], values),
    ensures
        first_failing(state, edges, values) == j,
{
    let f = first_failing(state, edges, values);
    assert(0 <= f < edges.len() && edge_fails(state, edges[f], values) && forall|k: int|
        0 <= k < edges.len() && spec_action_code(edges[k].0) < spec_action_code(edges[f].0)
            ==> !edge_fails(state, #[trigger] edges[k], values));
    if f != j {
        if f < j {
            assert(spec_action_code(edges[f].0) != spec_action_code(edges[j].0));
        } else {
            assert(spec_action_code(edges[j].0) != spec_action_code(edges[f].0));
        }
    }
}

/// A legal action of a position with its pieces on the board stays on the
/// board, and its action number is below 2450 on boards of up to 7x7.
proof fn lemma_legal_on_board(state: GameState, action: Action)
    requires
        codec_size(state.config.board_size as int),
        inventory_valid(state),
        state.spec_legal_actions().contains(action),
    ensures
        action_on_board(action, state.config.board_size as int),
        0 <= spec_action_code(action) < 2450,
{
    let size = state.config.board_size as int;
    lemma_legal_action_shape(state, action);
    lemma_full_board_bits(state.config);
    crate::geometry::lemma_cells(size);
    let cells = state.config.spec_cells();
    assert(cells == size * size);
    assert(size * size <= 49) by (nonlinear_arith)
        requires
            size <= 7,
            size >= 3,
    ;
    let d = action.spec_destination() as int;
    lemma_has_bit_and(state.config.spec_full_board(), !(state.light | state.dark | state.forbidden), d);
    match action {
        Action::Place { to } => {},
        Action::Relocate { from, to } => {
            let pieces = state.spec_pieces(state.turn);
            match state.marker_of(state.turn) {
                Some(sq) => {
                    lemma_has_bit_and(pieces, !crate::bitboard::single(sq as int), from as int);
                },
                None => {},
            }
            assert(has_bit(pieces, from as int));
            assert(from < cells);
            assert(49 + from * 49 + to < 2450) by (nonlinear_arith)
                requires
                    from < 49,
                    to < 49,
            ;
        },
    }
}

proof fn lemma_edge_problem(
    state: GameState,
    key: Seq<char>,
    value: RetrogradeValue,
    edges: Seq<(Action, Seq<char>)>,
    children: Seq<Seq<char>>,
    values: Seq<(Seq<char>, RetrogradeValue)>,
    existing: Option<GoldenOutcome>,
    j: int,
)
    requires
        key == key_text(state),
        !repeats_code(edges),
        covers_legal(state, edges),
        children_match(edges, children),
        0 <= j < edges.len(),
        edge_fails(state, edges[j], values),
        forall|k: int|
            0 <= k < edges.len() && spec_action_code(edges[k].0) < spec_action_code(edges[j].0)
                ==> !edge_fails(state, #[trigger] edges[k], values),
    ensures
        ring_row_problem(state, key, value, edges, children, values, existing) == Some(
            edge_problem(state, edges[j], values),
        ),
{
    reveal(ring_row_problem);
    lemma_first_failing(state, edges, values, j);
}

/// The edge numbered `code`, if any.
fn find_code(edges: &Vec<(Action, String)>, code: u16) -> (r: Option<usize>)
    ensures
        r matches Some(j) ==> j < edges@.len() && spec_action_code(edges@[j as int].0) == code,
        r is None ==> forall|i: int| 0 <= i < edges@.len() ==> spec_action_code(#[trigger] edges@[i].0) != code,
{
    let mut i: usize = 0;
    while i < edges.len()
        invariant
            i <= edges@.len(),
            forall|k: int| 0 <= k < i ==> spec_action_code(#[trigger] edges@[k].0) != code,
        decreases edges@.len() - i,
    {
        if action_code(edges[i].0) == code {
            return Some(i);
        }
        i = i + 1;
    }
    None
}

/// Checks a solved ring row before promotion, in order: its key is the
/// position's canonical key; no two edges share an action number; the edges'
/// actions are exactly the legal actions; the listed children are exactly
/// those the edges name; in action-number order, each edge replays to the
/// child it names and that child has an exact value; the row's value is the
/// minimax of the negated child values one ply further away; it agrees with
/// the existing golden outcome, if any; and every symmetry keeps the key.
/// Gives the labelled actions in action-number order, turned into the
/// canonical orientation.
#[verifier::rlimit(60)]
pub fn validate_ring_row(
    state: GameState,
    key: &str,
    value: RetrogradeValue,
    edges: &Vec<(Action, String)>,
    children: &Vec<String>,
    child_values: &RetrogradeValues,
    existing: Option<GoldenOutcome>,
) -> (r: Result<Vec<(Action, RetrogradeValue)>, String>)
    requires
        codec_size(state.config.board_size as int),
        inventory_valid(state),
        playable(state),
    ensures
        r is Ok <==> ring_row_problem(
            state,
            key@,
            value,
            edge_texts(edges@),
            children@.map_values(|c: String| c@),
            child_values@,
            existing,
        ) is None,
        r matches Err(e) ==> ring_row_problem(
            state,
            key@,
            value,
            edge_texts(edges@),
            children@.map_values(|c: String| c@),
            child_values@,
            existing,
        ) == Some(e@),
        r matches Ok(l) ==> l@.len() == edges@.len() && forall|i: int|
            0 <= i < edges@.len() ==> l@[code_rank(edge_texts(edges@), i) as int] == oriented(
                state,
                #[trigger] edge_texts(edges@)[i],
                child_values@,
            ),
{
    let ghost texts = edge_texts(edges@);
    let ghost names = children@.map_values(|c: String| c@);
    let ghost values = child_values@;
    let (canon, symmetry) = canonical_key(state);
    proof {
        lemma_least_key_upto(state, 8);
    }
    let canon_text = hex_key(canon.as_slice());
    if !same_key(canon_text.as_str(), key) {
        proof {
            reveal(ring_row_problem);
        }
        return Err(String::from_str("position key is not canonical"));
    }
    if repeated_code(edges) {
        proof {
            reveal(ring_row_problem);
        }
        return Err(String::from_str("duplicate action edge"));
    }
    let legal = state.legal_actions();
    if !covers(state, &legal, edges) {
        proof {
            reveal(ring_row_problem);
        }
        return Err(String::from_str("edge graph does not cover the legal action set"));
    }
    if !children_agree(edges, children) {
        proof {
            reveal(ring_row_problem);
        }
        return Err(String::from_str("edge graph children do not match the record"));
    }
    let mut labels: Vec<(Action, RetrogradeValue)> = Vec::new();
    let mut code: u16 = 0;
    proof {
        lemma_codes_below_zero(texts);
    }
    while code < 2450
        invariant
            code <= 2450,
            texts == edge_texts(edges@),
            values == child_values@,
            codec_size(state.config.board_size as int),
            inventory_valid(state),
            playable(state),
            symmetry == least_key_upto(state, 8).1,
            symmetry < 8,
            !repeats_code(texts),
            covers_legal(state, texts),
            key@ == key_text(state),
            names == children@.map_values(|c: String| c@),
            children_match(texts, names),
            labels@.len() == codes_below(texts, code as int),
            forall|i: int|
                0 <= i < texts.len() && spec_action_code(texts[i].0) < code ==> !edge_fails(
                    state,
                    #[trigger] texts[i],
                    values,
                ) && code_rank(texts, i) < labels@.len() && labels@[code_rank(texts, i) as int] == oriented(
                    state,
                    texts[i],
                    values,
                ),
        decreases 2450 - code,
    {
        match find_code(edges, code) {
            None => {
                proof {
                    assert forall|i: int| 0 <= i < texts.len() implies spec_action_code(
                        #[trigger] texts[i].0,
                    ) != code by {
                        assert(texts[i].0 == edges@[i].0);
                    }
                    lemma_codes_below_absent(texts, code as int);
                }
            },
            Some(j) => {
                let action = edges[j].0;
                proof {
                    assert(texts[j as int].0 == action);
                    assert(state.spec_legal_actions().contains(action));
                    lemma_legal_on_board(state, action);
                    lemma_markers_kept(state, action);
                    law_play_keeps_inventory(state, action);
                }
                let next = state.apply_legal(action).state;
                let child_text = hex_key(canonical_position_key(next).as_slice());
                if !same_key(child_text.as_str(), edges[j].1.as_str()) {
                    proof {
                        assert(!replays(state, texts[j as int]));
                        lemma_edge_problem(state, key@, value, texts, names, values, existing, j as int);
                    }
                    return Err(
                        String::from_str("action code ").concat(decimal_string_u64(code as u64).as_str()).concat(
                            " does not replay to its child key",
                        ),
                    );
                }
                let found = child_values.get(edges[j].1.as_str());
                let child = match found {
                    Some(v) => v,
                    None => {
                        proof {
                            assert(value_of(values, texts[j as int].1) is None);
                            lemma_edge_problem(state, key@, value, texts, names, values, existing, j as int);
                        }
                        return Err(
                            String::from_str("child ").concat(edges[j].1.as_str()).concat(
                                " is not an exact inner value",
                            ),
                        );
                    },
                };
                let turned = transform_action(action, state.config.board_size, symmetry);
                let ghost before = labels@;
                labels.push((turned, label_of(child)));
                proof {
                    lemma_codes_below_step(texts, code as int, j as int);
                    assert(labels@[before.len() as int] == oriented(state, texts[j as int], values));
                    assert forall|i: int|
                        0 <= i < texts.len() && spec_action_code(texts[i].0) < code + 1 implies !edge_fails(
                        state,
                        #[trigger] texts[i],
                        values,
                    ) && code_rank(texts, i) < labels@.len() && labels@[code_rank(texts, i) as int] == oriented(
                        state,
                        texts[i],
                        values,
                    ) by {
                        if spec_action_code(texts[i].0) == code {
                            if i != j {
                                if i < j {
                                    assert(spec_action_code(texts[i].0) != spec_action_code(texts[j as int].0));
                                } else {
                                    assert(spec_action_code(texts[j as int].0) != spec_action_code(texts[i].0));
                                }
                            }
                        }
                    }
                }
            },
        }
        code = code + 1;
    }
    proof {
        assert forall|i: int| 0 <= i < texts.len() implies spec_action_code(#[trigger] texts[i].0) < 2450 by {
            lemma_legal_on_board(state, texts[i].0);
        }
        lemma_codes_below_all(texts, 2450);
        assert(!exists|i: int| 0 <= i < texts.len() && edge_fails(state, #[trigger] texts[i], values));
        assert forall|i: int| 0 <= i < edges@.len() implies value_of(child_values@, (#[trigger] edge_texts(edges@)[i]).1) is Some by {
            assert(!edge_fails(state, texts[i], values));
        }
    }
    let (outcome, best_win, best_loss) = row_minimax(edges, child_values);
    let distance = match outcome {
        GroundTruthOutcome::Win => match best_win {
            Some(d) => Some(d),
            None => {
                proof {
                    reveal(ring_row_problem);
                }
                return Err(String::from_str("winning row lacks a proven distance"));
            },
        },
        GroundTruthOutcome::Loss => match best_loss {
            Some(d) => Some(d),
            None => {
                proof {
                    reveal(ring_row_problem);
                }
                return Err(String::from_str("losing row lacks a proven distance"));
            },
        },
        _ => None,
    };
    proof {
        match outcome {
            GroundTruthOutcome::Win => {
                lemma_best_distance(texts, values, outcome, best_win->0);
            },
            GroundTruthOutcome::Loss => {
                lemma_best_distance(texts, values, outcome, best_loss->0);
            },
            _ => {},
        }
        assert(distance == row_distance(texts, values));
    }
    if !same_outcome(value.outcome, outcome) || !same_distance(value.distance, distance) {
        proof {
            reveal(ring_row_problem);
        }
        return Err(String::from_str("solved Ring value disagrees with child minimax"));
    }
    match existing {
        Some(g) => {
            if !same_golden(g, to_golden(value.outcome)) {
                proof {
                    reveal(ring_row_problem);
                }
                return Err(String::from_str("position conflicts with existing golden value"));
            }
        },
        None => {},
    }
    proof {
        assert(inventory_valid(state));
    }
    match moving_symmetry(state, key) {
        Some(s) => {
            proof {
                reveal(ring_row_problem);
            }
            return Err(
                String::from_str("symmetry ").concat(decimal_string(s).as_str()).concat(
                    " changed canonicalization",
                ),
            );
        },
        None => {},
    }
    proof {
        assert forall|i: int| 0 <= i < edges@.len() implies labels@[code_rank(edge_texts(edges@), i) as int] == oriented(
            state,
            #[trigger] edge_texts(edges@)[i],
            child_values@,
        ) by {
            assert(spec_action_code(texts[i].0) < 2450) by {
                lemma_legal_on_board(state, texts[i].0);
            }
        }
    }
    proof {
        reveal(ring_row_problem);
    }
    Ok(labels)
}

} // verus!
