//! Strict exact/unknown endgame oracle results.
//!
//! A bounded search may be useful to choose a move, but an exhausted or
//! horizon-limited result is not a draw and must never be promoted as one:
//! the four-valued outcome keeps `Unknown` apart from the three exact values.

use vstd::prelude::*;

use crate::rules::{
    contains_action, lemma_legal_action_bound, Action, BoardConfig, GameState, Player,
};

verus! {

/// Four-valued result used by the golden-data pipeline.
#[derive(Clone, Copy, Debug, PartialEq, Eq, Structural)]
pub enum GroundTruthOutcome {
    Loss,
    Draw,
    Win,
    Unknown,
}

impl GroundTruthOutcome {
    pub open spec fn known(self) -> bool {
        !(self is Unknown)
    }

    pub open spec fn negated(self) -> GroundTruthOutcome {
        match self {
            GroundTruthOutcome::Loss => GroundTruthOutcome::Win,
            GroundTruthOutcome::Draw => GroundTruthOutcome::Draw,
            GroundTruthOutcome::Win => GroundTruthOutcome::Loss,
            GroundTruthOutcome::Unknown => GroundTruthOutcome::Unknown,
        }
    }

    pub fn is_known(self) -> (r: bool)
        ensures
            r == self.known(),
    {
        !matches!(self, Self::Unknown)
    }

    /// The outcome from the other side's point of view.
    pub fn negate(self) -> (r: Self)
        ensures
            r == self.negated(),
    {
        match self {
            Self::Loss => Self::Win,
            Self::Draw => Self::Draw,
            Self::Win => Self::Loss,
            Self::Unknown => Self::Unknown,
        }
    }
}

/// Seen from the other side twice, an outcome is itself; the view from the
/// other side is known exactly when the outcome is.
pub proof fn law_negate_involution(outcome: GroundTruthOutcome)
    ensures
        outcome.negated().negated() == outcome,
        outcome.negated().known() == outcome.known(),
        outcome == GroundTruthOutcome::Draw ==> outcome.negated() == outcome,
{
}

#[derive(Clone, Copy, Debug, PartialEq, Eq, Structural)]
pub struct GroundTruthConfig {
    /// Optional proof horizon. `None` means continue until a rule terminal,
    /// repetition draw, or the node budget.
    pub horizon: Option<u16>,
    pub max_nodes: u64,
    /// `None` gives the historyless, infinite-play semantics; a value solves
    /// the finite-ply rules.
    pub max_plies: Option<u16>,
}

impl Default for GroundTruthConfig {
    fn default() -> (r: Self)
        ensures
            r == (GroundTruthConfig { horizon: None, max_nodes: 100_000, max_plies: None }),
    {
        GroundTruthConfig { horizon: None, max_nodes: 100_000, max_plies: None }
    }
}

#[derive(Clone, Copy, Debug, PartialEq, Eq, Structural)]
pub struct GroundTruthStats {
    pub nodes: u64,
    pub cache_hits: u64,
    pub table_entries: usize,
    pub exhausted: bool,
}

#[derive(Clone, Copy, Debug, PartialEq, Eq, Structural)]
pub struct GroundTruthValue {
    pub outcome: GroundTruthOutcome,
    pub distance: Option<u16>,
}

#[derive(Clone, Copy, Debug, PartialEq, Eq, Structural)]
pub struct GroundTruthAction {
    pub action: Action,
    /// Result from the parent side-to-move perspective.
    pub outcome: GroundTruthOutcome,
    pub distance: Option<u16>,
}

#[derive(Clone, Debug)]
pub struct GroundTruthAnalysis {
    pub outcome: GroundTruthOutcome,
    pub distance: Option<u16>,
    pub actions: Vec<GroundTruthAction>,
    /// False when any legal action remains unknown: a known winning action is
    /// still useful, but it is not the complete optimal-action set until every
    /// action has a proven result.
    pub optimal_actions_complete: bool,
    pub optimal_actions: Vec<Action>,
    pub stats: GroundTruthStats,
}

// ---------------------------------------------------------------------------
// Aggregation
// ---------------------------------------------------------------------------

pub open spec fn is_win(value: GroundTruthValue) -> bool {
    value.outcome == GroundTruthOutcome::Win
}

/// The shortest distance among the winning values below `n` that have one.
pub open spec fn least_win_distance(values: Seq<GroundTruthValue>, n: nat) -> Option<u16>
    decreases n,
{
    if n == 0 {
        None
    } else {
        let rest = least_win_distance(values, (n - 1) as nat);
        let value = values[n - 1];
        if is_win(value) && value.distance is Some {
            match rest {
                Some(d) => Some(
                    if value.distance.unwrap() < d {
                        value.distance.unwrap()
                    } else {
                        d
                    },
                ),
                None => value.distance,
            }
        } else {
            rest
        }
    }
}

/// The longest distance among the values below `n` that have one.
pub open spec fn greatest_distance(values: Seq<GroundTruthValue>, n: nat) -> Option<u16>
    decreases n,
{
    if n == 0 {
        None
    } else {
        let rest = greatest_distance(values, (n - 1) as nat);
        let value = values[n - 1];
        if value.distance is Some {
            match rest {
                Some(d) => Some(
                    if value.distance.unwrap() > d {
                        value.distance.unwrap()
                    } else {
                        d
                    },
                ),
                None => value.distance,
            }
        } else {
            rest
        }
    }
}

/// The value of a position from its children's values, seen from the mover:
/// a win when some child value is a win (at the shortest known distance);
/// unknown when the list is incomplete or holds an unknown; a loss when every
/// value is a loss (at the longest known distance); otherwise a draw.
pub open spec fn aggregate(values: Seq<GroundTruthValue>, complete: bool) -> GroundTruthValue {
    if exists|i: int| 0 <= i < values.len() && is_win(#[trigger] values[i]) {
        GroundTruthValue {
            outcome: GroundTruthOutcome::Win,
            distance: least_win_distance(values, values.len()),
        }
    } else if !complete || exists|i: int| 0 <= i < values.len() && !(#[trigger] values[i]).outcome.known() {
        GroundTruthValue { outcome: GroundTruthOutcome::Unknown, distance: None }
    } else if forall|i: int| 0 <= i < values.len() ==> (#[trigger] values[i]).outcome == GroundTruthOutcome::Loss {
        GroundTruthValue {
            outcome: GroundTruthOutcome::Loss,
            distance: greatest_distance(values, values.len()),
        }
    } else {
        GroundTruthValue { outcome: GroundTruthOutcome::Draw, distance: None }
    }
}

/// Combine child values into the parent's value.
pub fn aggregate_values(values: &[GroundTruthValue], complete: bool) -> (r: GroundTruthValue)
    ensures
        r == aggregate(values@, complete),
        r.outcome == GroundTruthOutcome::Draw ==> complete && forall|i: int|
            0 <= i < values@.len() ==> (#[trigger] values@[i]).outcome.known(),
{
    let mut any_win = false;
    let mut any_unknown = false;
    let mut all_loss = true;
    let mut win_distance: Option<u16> = None;
    let mut loss_distance: Option<u16> = None;
    let mut i: usize = 0;
    while i < values.len()
        invariant
            i <= values@.len(),
            any_win == exists|j: int| 0 <= j < i && is_win(#[trigger] values@[j]),
            any_unknown == exists|j: int| 0 <= j < i && !(#[trigger] values@[j]).outcome.known(),
            all_loss == forall|j: int| 0 <= j < i ==> (#[trigger] values@[j]).outcome == GroundTruthOutcome::Loss,
            win_distance == least_win_distance(values@, i as nat),
            loss_distance == greatest_distance(values@, i as nat),
        decreases values@.len() - i,
    {
        let value = values[i];
        if value.outcome == GroundTruthOutcome::Win {
            any_win = true;
            if let Some(d) = value.distance {
                win_distance = match win_distance {
                    Some(best) => Some(
                        if d < best {
                            d
                        } else {
                            best
                        },
                    ),
                    None => Some(d),
                };
            }
        }
        if value.outcome == GroundTruthOutcome::Unknown {
            any_unknown = true;
        }
        if value.outcome != GroundTruthOutcome::Loss {
            all_loss = false;
        }
        if let Some(d) = value.distance {
            loss_distance = match loss_distance {
                Some(best) => Some(
                    if d > best {
                        d
                    } else {
                        best
                    },
                ),
                None => Some(d),
            };
        }
        i = i + 1;
    }
    if any_win {
        return GroundTruthValue { outcome: GroundTruthOutcome::Win, distance: win_distance };
    }
    if !complete || any_unknown {
        return GroundTruthValue { outcome: GroundTruthOutcome::Unknown, distance: None };
    }
    if all_loss {
        return GroundTruthValue { outcome: GroundTruthOutcome::Loss, distance: loss_distance };
    }
    GroundTruthValue { outcome: GroundTruthOutcome::Draw, distance: None }
}

// ---------------------------------------------------------------------------
// Repetition history
// ---------------------------------------------------------------------------

/// What makes two positions the same for repetition: the pieces, reserves,
/// side to move, forbidden squares and relocation markers; the ply counter
/// and the last move's bookkeeping do not.
#[derive(Clone, Copy, Debug, PartialEq, Eq, Hash, Structural)]
pub struct RepetitionKey {
    pub light: u64,
    pub dark: u64,
    pub light_reserve: u8,
    pub dark_reserve: u8,
    pub turn: Player,
    pub forbidden: u64,
    pub light_marker: Option<u8>,
    pub dark_marker: Option<u8>,
}

pub open spec fn marker_rank(marker: Option<u8>) -> int {
    match marker {
        Some(square) => square as int + 1,
        None => 0,
    }
}

/// The order in which histories list their keys: field by field.
pub open spec fn key_before(a: RepetitionKey, b: RepetitionKey) -> bool {
    if a.light != b.light {
        a.light < b.light
    } else if a.dark != b.dark {
        a.dark < b.dark
    } else if a.light_reserve != b.light_reserve {
        a.light_reserve < b.light_reserve
    } else if a.dark_reserve != b.dark_reserve {
        a.dark_reserve < b.dark_reserve
    } else if a.turn != b.turn {
        a.turn.slot() < b.turn.slot()
    } else if a.forbidden != b.forbidden {
        a.forbidden < b.forbidden
    } else if a.light_marker != b.light_marker {
        marker_rank(a.light_marker) < marker_rank(b.light_marker)
    } else {
        marker_rank(a.dark_marker) < marker_rank(b.dark_marker)
    }
}

proof fn lemma_key_before_order(a: RepetitionKey, b: RepetitionKey, c: RepetitionKey)
    ensures
        !key_before(a, a),
        a != b ==> key_before(a, b) || key_before(b, a),
        key_before(a, b) && key_before(b, c) ==> key_before(a, c),
{
    if a.light_marker != b.light_marker {
        assert(marker_rank(a.light_marker) != marker_rank(b.light_marker));
    }
    if a.dark_marker != b.dark_marker {
        assert(marker_rank(a.dark_marker) != marker_rank(b.dark_marker));
    }
    if a.turn != b.turn {
        assert(a.turn.slot() != b.turn.slot());
    }
}

impl RepetitionKey {
    pub open spec fn of(state: GameState) -> RepetitionKey {
        RepetitionKey {
            light: state.light,
            dark: state.dark,
            light_reserve: state.reserve[0],
            dark_reserve: state.reserve[1],
            turn: state.turn,
            forbidden: state.forbidden,
            light_marker: state.last_relocated_to[0],
            dark_marker: state.last_relocated_to[1],
        }
    }

    pub fn from_state(state: GameState) -> (r: RepetitionKey)
        ensures
            r == RepetitionKey::of(state),
    {
        RepetitionKey {
            light: state.light,
            dark: state.dark,
            light_reserve: state.reserve[0],
            dark_reserve: state.reserve[1],
            turn: state.turn,
            forbidden: state.forbidden,
            light_marker: state.last_relocated_to[0],
            dark_marker: state.last_relocated_to[1],
        }
    }
}

fn precedes(a: RepetitionKey, b: RepetitionKey) -> (r: bool)
    ensures
        r == key_before(a, b),
{
    if a.light != b.light {
        a.light < b.light
    } else if a.dark != b.dark {
        a.dark < b.dark
    } else if a.light_reserve != b.light_reserve {
        a.light_reserve < b.light_reserve
    } else if a.dark_reserve != b.dark_reserve {
        a.dark_reserve < b.dark_reserve
    } else if a.turn != b.turn {
        a.turn.index() < b.turn.index()
    } else if a.forbidden != b.forbidden {
        a.forbidden < b.forbidden
    } else if a.light_marker != b.light_marker {
        rank(a.light_marker) < rank(b.light_marker)
    } else {
        rank(a.dark_marker) < rank(b.dark_marker)
    }
}

fn rank(marker: Option<u8>) -> (r: u16)
    ensures
        r == marker_rank(marker),
{
    match marker {
        Some(square) => square as u16 + 1,
        None => 0,
    }
}

/// The keys of `entries` increase strictly.
pub open spec fn keys_sorted(entries: Seq<(RepetitionKey, u8)>) -> bool {
    forall|i: int, j: int| 0 <= i < j < entries.len() ==> key_before(#[trigger] entries[i].0, #[trigger] entries[j].0)
}

/// How often `key` occurred.
pub open spec fn count_of(entries: Seq<(RepetitionKey, u8)>, key: RepetitionKey) -> u8 {
    if exists|i: int| 0 <= i < entries.len() && (#[trigger] entries[i]).0 == key {
        entries[choose|i: int| 0 <= i < entries.len() && (#[trigger] entries[i]).0 == key].1
    } else {
        0
    }
}

/// The entries that occurred at least once, in key order.
pub open spec fn occurred(entries: Seq<(RepetitionKey, u8)>) -> Seq<(RepetitionKey, u8)> {
    entries.filter(|entry: (RepetitionKey, u8)| entry.1 > 0)
}

/// Occurrence counts of the positions of a line of play, listed in key order.
pub struct History {
    entries: Vec<(RepetitionKey, u8)>,
}

impl History {
    pub closed spec fn view(&self) -> Seq<(RepetitionKey, u8)> {
        self.entries@
    }

    #[verifier::type_invariant]
    closed spec fn inv(&self) -> bool {
        keys_sorted(self.entries@)
    }

    pub fn new() -> (r: History)
        ensures
            r@ == Seq::<(RepetitionKey, u8)>::empty(),
    {
        History { entries: Vec::new() }
    }

    /// How often `key` occurred.
    pub fn count(&self, key: RepetitionKey) -> (r: u8)
        ensures
            r == count_of(self@, key),
    {
        let mut i: usize = 0;
        while i < self.entries.len()
            invariant
                i <= self.entries@.len(),
                forall|j: int| 0 <= j < i ==> (#[trigger] self.entries@[j]).0 != key,
            decreases self.entries@.len() - i,
        {
            if self.entries[i].0 == key {
                proof {
                    use_type_invariant(self);
                    assert forall|j: int| 0 <= j < self@.len() && (#[trigger] self@[j]).0 == key implies j == i by {
                        if j > i {
                            lemma_key_before_order(self@[i as int].0, self@[j].0, key);
                        }
                    }
                }
                return self.entries[i].1;
            }
            i = i + 1;
        }
        0
    }

    /// Record that `key` occurred `count` times, replacing any earlier count.
    pub fn insert(&mut self, key: RepetitionKey, count: u8)
        ensures
            count_of(final(self)@, key) == count,
            forall|other: RepetitionKey| other != key ==> count_of(final(self)@, other) == count_of(old(self)@, other),
    {
        proof {
            use_type_invariant(&*self);
        }
        let ghost before = self@;
        let mut i: usize = 0;
        while i < self.entries.len() && precedes(self.entries[i].0, key)
            invariant
                i <= self.entries@.len(),
                self@ == before,
                keys_sorted(before),
                forall|j: int| 0 <= j < i ==> key_before((#[trigger] before[j]).0, key),
            decreases self.entries@.len() - i,
        {
            i = i + 1;
        }
        let mut entries: Vec<(RepetitionKey, u8)> = Vec::new();
        std::mem::swap(&mut entries, &mut self.entries);
        if i < entries.len() && entries[i].0 == key {
            entries.set(i, (key, count));
            proof {
                let after = before.update(i as int, (key, count));
                assert(after == entries@);
                assert forall|a: int, b: int| 0 <= a < b < after.len() implies key_before(#[trigger] after[a].0, #[trigger] after[b].0) by {
                    assert(after[a].0 == before[a].0);
                    assert(after[b].0 == before[b].0);
                }
                lemma_count_after_update(before, i as int, key, count);
            }
        } else {
            entries.insert(i, (key, count));
            proof {
                let after = before.insert(i as int, (key, count));
                assert(after == entries@);
                if i < before.len() {
                    lemma_key_before_order(before[i as int].0, key, key);
                    assert(!key_before(before[i as int].0, key));
                    assert(key_before(key, before[i as int].0));
                }
                assert forall|a: int, b: int| 0 <= a < b < after.len() implies key_before(#[trigger] after[a].0, #[trigger] after[b].0) by {
                    if b < i {
                    } else if b == i {
                    } else if a < i {
                        lemma_key_before_order(before[a].0, key, after[b].0);
                        if b - 1 > i {
                            lemma_key_before_order(key, before[i as int].0, before[b - 1].0);
                        }
                    } else if a == i {
                        if b - 1 > i {
                            lemma_key_before_order(key, before[i as int].0, before[b - 1].0);
                        }
                    } else {
                    }
                }
                lemma_count_after_insert(before, i as int, key, count);
            }
        }
        self.entries = entries;
    }

    /// The occurred entries, in key order.
    pub fn signature(&self) -> (r: Vec<(RepetitionKey, u8)>)
        ensures
            r@ == occurred(self@),
    {
        let mut r: Vec<(RepetitionKey, u8)> = Vec::new();
        let mut i: usize = 0;
        while i < self.entries.len()
            invariant
                i <= self.entries@.len(),
                r@ == occurred(self.entries@.take(i as int)),
            decreases self.entries@.len() - i,
        {
            proof {
                assert(self.entries@.take(i as int + 1).drop_last() =~= self.entries@.take(i as int));
                assert(self.entries@.take(i as int + 1).last() == self.entries@[i as int]);
                self.entries@.take(i as int + 1).filter_lemma(|entry: (RepetitionKey, u8)| entry.1 > 0);
                reveal(Seq::filter);
            }
            let entry = self.entries[i];
            if entry.1 > 0 {
                r.push(entry);
            }
            i = i + 1;
        }
        proof {
            assert(self.entries@.take(self.entries@.len() as int) =~= self.entries@);
        }
        r
    }

    /// A copy of the history.
    pub fn copy(&self) -> (r: History)
        ensures
            r@ == self@,
    {
        proof {
            use_type_invariant(self);
        }
        let mut entries: Vec<(RepetitionKey, u8)> = Vec::new();
        let mut i: usize = 0;
        while i < self.entries.len()
            invariant
                i <= self.entries@.len(),
                entries@ == self.entries@.take(i as int),
            decreases self.entries@.len() - i,
        {
            entries.push(self.entries[i]);
            i = i + 1;
            proof {
                assert(entries@ =~= self.entries@.take(i as int));
            }
        }
        proof {
            assert(self.entries@.take(self.entries@.len() as int) =~= self.entries@);
        }
        History { entries }
    }
}

proof fn lemma_count_after_update(before: Seq<(RepetitionKey, u8)>, i: int, key: RepetitionKey, count: u8)
    requires
        keys_sorted(before),
        0 <= i < before.len(),
        before[i].0 == key,
    ensures
        count_of(before.update(i, (key, count)), key) == count,
        forall|other: RepetitionKey| other != key ==> count_of(before.update(i, (key, count)), other) == count_of(before, other),
{
    let after = before.update(i, (key, count));
    assert forall|j: int| 0 <= j < after.len() && (#[trigger] after[j]).0 == key implies j == i by {
        if j < i {
            lemma_key_before_order(before[j].0, key, key);
        } else if j > i {
            lemma_key_before_order(key, before[j].0, key);
        }
    }
    assert(after[i].0 == key);
    assert forall|other: RepetitionKey| other != key implies count_of(after, other) == count_of(before, other) by {
        assert forall|j: int| 0 <= j < after.len() implies ((#[trigger] after[j]).0 == other) == (before[j].0 == other) && (after[j].0 == other ==> after[j] == before[j]) by {
            if j == i {
            }
        }
        if exists|j: int| 0 <= j < before.len() && (#[trigger] before[j]).0 == other {
            let j = choose|j: int| 0 <= j < before.len() && (#[trigger] before[j]).0 == other;
            assert(after[j].0 == other);
        }
        if exists|j: int| 0 <= j < after.len() && (#[trigger] after[j]).0 == other {
            let j = choose|j: int| 0 <= j < after.len() && (#[trigger] after[j]).0 == other;
            assert(before[j].0 == other);
        }
    }
}

proof fn lemma_count_after_insert(before: Seq<(RepetitionKey, u8)>, i: int, key: RepetitionKey, count: u8)
    requires
        0 <= i <= before.len(),
        forall|j: int| 0 <= j < before.len() ==> (#[trigger] before[j]).0 != key,
        keys_sorted(before.insert(i, (key, count))),
    ensures
        count_of(before.insert(i, (key, count)), key) == count,
        forall|other: RepetitionKey| other != key ==> count_of(before.insert(i, (key, count)), other) == count_of(before, other),
{
    let after = before.insert(i, (key, count));
    assert forall|j: int| 0 <= j < after.len() && (#[trigger] after[j]).0 == key implies j == i by {
        if j < i {
            assert(after[j] == before[j]);
        } else if j > i {
            assert(after[j] == before[j - 1]);
        }
    }
    assert(after[i].0 == key);
    assert forall|other: RepetitionKey| other != key implies count_of(after, other) == count_of(before, other) by {
        if exists|j: int| 0 <= j < before.len() && (#[trigger] before[j]).0 == other {
            let j = choose|j: int| 0 <= j < before.len() && (#[trigger] before[j]).0 == other;
            let k = if j < i { j } else { j + 1 };
            assert(after[k] == before[j]);
            let c = choose|c: int| 0 <= c < after.len() && (#[trigger] after[c]).0 == other;
            assert forall|x: int, y: int| 0 <= x < after.len() && 0 <= y < after.len() && after[x].0 == other && after[y].0 == other implies x == y by {
                if x < y {
                    assert(key_before(after[x].0, after[y].0));
                    lemma_key_before_order(other, other, other);
                } else if y < x {
                    assert(key_before(after[y].0, after[x].0));
                    lemma_key_before_order(other, other, other);
                }
            }
            assert(c == k);
            let d = choose|d: int| 0 <= d < before.len() && (#[trigger] before[d]).0 == other;
            let e = if d < i { d } else { d + 1 };
            assert(after[e] == before[d]);
            assert(e == k);
        }
        if exists|j: int| 0 <= j < after.len() && (#[trigger] after[j]).0 == other {
            let j = choose|j: int| 0 <= j < after.len() && (#[trigger] after[j]).0 == other;
            assert(j != i);
            if j < i {
                assert(before[j].0 == other);
            } else {
                assert(before[j - 1].0 == other);
            }
        }
    }
}

// ---------------------------------------------------------------------------
// The solver
// ---------------------------------------------------------------------------

/// Field-by-field equality of positions.
pub open spec fn same_position(a: GameState, b: GameState) -> bool {
    &&& a.config == b.config
    &&& a.light == b.light
    &&& a.dark == b.dark
    &&& a.reserve[0] == b.reserve[0]
    &&& a.reserve[1] == b.reserve[1]
    &&& a.turn == b.turn
    &&& a.forbidden == b.forbidden
    &&& a.last_relocated_to[0] == b.last_relocated_to[0]
    &&& a.last_relocated_to[1] == b.last_relocated_to[1]
    &&& a.last_capture == b.last_capture
    &&& a.last_player == b.last_player
    &&& a.winner == b.winner
    &&& a.ply == b.ply
}

pub(crate) fn same_position_exec(a: &GameState, b: &GameState) -> (r: bool)
    ensures
        r == same_position(*a, *b),
{
    a.config == b.config && a.light == b.light && a.dark == b.dark && a.reserve[0] == b.reserve[0]
        && a.reserve[1] == b.reserve[1] && a.turn == b.turn && a.forbidden == b.forbidden
        && a.last_relocated_to[0] == b.last_relocated_to[0] && a.last_relocated_to[1]
        == b.last_relocated_to[1] && a.last_capture == b.last_capture && a.last_player
        == b.last_player && a.winner == b.winner && a.ply == b.ply
}

/// The cache key of a solve: the position, the remaining horizon and the
/// occurred part of the repetition history.
pub struct SolverKey {
    pub state: GameState,
    pub horizon: Option<u16>,
    pub history: Vec<(RepetitionKey, u8)>,
}

/// One cached value, as the solver's table holds it.
pub struct CachedValue {
    pub state: GameState,
    pub horizon: Option<u16>,
    pub history: Seq<(RepetitionKey, u8)>,
    pub value: GroundTruthValue,
}

struct SolverEntry {
    state: GameState,
    horizon: Option<u16>,
    history: Vec<(RepetitionKey, u8)>,
    value: GroundTruthValue,
}

impl SolverEntry {
    spec fn view(&self) -> CachedValue {
        CachedValue {
            state: self.state,
            horizon: self.horizon,
            history: self.history@,
            value: self.value,
        }
    }
}

pub open spec fn entry_matches(
    entry: CachedValue,
    state: GameState,
    horizon: Option<u16>,
    history: Seq<(RepetitionKey, u8)>,
) -> bool {
    same_position(entry.state, state) && entry.horizon == horizon && entry.history == history
}

/// The first cached entry below `n` for a key.
pub open spec fn first_entry(
    table: Seq<CachedValue>,
    state: GameState,
    horizon: Option<u16>,
    history: Seq<(RepetitionKey, u8)>,
    n: nat,
) -> Option<int>
    decreases n,
{
    if n == 0 {
        None
    } else {
        match first_entry(table, state, horizon, history, (n - 1) as nat) {
            Some(i) => Some(i),
            None => if entry_matches(table[n - 1], state, horizon, history) {
                Some(n - 1)
            } else {
                None
            },
        }
    }
}

/// The value a table holds for a key.
pub open spec fn cached(
    table: Seq<CachedValue>,
    state: GameState,
    horizon: Option<u16>,
    history: Seq<(RepetitionKey, u8)>,
) -> Option<GroundTruthValue> {
    match first_entry(table, state, horizon, history, table.len()) {
        Some(i) => Some(table[i].value),
        None => None,
    }
}

/// The table after storing a value under a key: the first entry for the key
/// takes the value, or a new entry is added.
pub open spec fn stored(
    table: Seq<CachedValue>,
    state: GameState,
    horizon: Option<u16>,
    history: Seq<(RepetitionKey, u8)>,
    value: GroundTruthValue,
) -> Seq<CachedValue> {
    match first_entry(table, state, horizon, history, table.len()) {
        Some(i) => table.update(i, CachedValue { value, ..table[i] }),
        None => table.push(CachedValue { state, horizon, history, value }),
    }
}

/// The value of a rule terminal, a repetition or ply-limit draw, or a spent
/// horizon; none when the position must be searched.
pub open spec fn terminal(
    config: GroundTruthConfig,
    state: GameState,
    occurrences: u8,
    horizon: Option<u16>,
) -> Option<GroundTruthValue> {
    if state.winner is Some {
        Some(
            GroundTruthValue {
                outcome: if state.winner == Some(state.turn) {
                    GroundTruthOutcome::Win
                } else {
                    GroundTruthOutcome::Loss
                },
                distance: Some(0),
            },
        )
    } else if occurrences >= 3 {
        Some(GroundTruthValue { outcome: GroundTruthOutcome::Draw, distance: None })
    } else if config.max_plies matches Some(limit) && state.ply >= limit {
        Some(GroundTruthValue { outcome: GroundTruthOutcome::Draw, distance: None })
    } else if horizon == Some(0u16) {
        Some(GroundTruthValue { outcome: GroundTruthOutcome::Unknown, distance: None })
    } else {
        None
    }
}

/// A history in which only the current position may have reached a fourth
/// occurrence.
pub open spec fn history_bounded(history: Seq<(RepetitionKey, u8)>, state: GameState) -> bool {
    forall|key: RepetitionKey|
        #[trigger] count_of(history, key) <= 3 || (key == RepetitionKey::of(state) && count_of(
            history,
            key,
        ) <= 4)
}

/// A value that a node search can produce from the labels of its first
/// actions: the labels stop early only at a win.
pub open spec fn searched_value(value: GroundTruthValue, action_count: nat) -> bool {
    if action_count == 0 {
        value == GroundTruthValue { outcome: GroundTruthOutcome::Draw, distance: None }
    } else {
        exists|labels: Seq<GroundTruthValue>|
            0 < labels.len() <= action_count && value == aggregate(
                labels,
                labels.len() == action_count,
            ) && (labels.len() < action_count ==> is_win(labels.last()))
    }
}

/// A bounded exact solver with a cache keyed by position, horizon and
/// repetition history.
pub struct Solver {
    config: GroundTruthConfig,
    table: Vec<SolverEntry>,
    nodes: u64,
    cache_hits: u64,
    exhausted: bool,
}

impl Solver {
    /// The next history: `history` with one more occurrence of `state`.
    pub fn next_history(history: &History, state: GameState) -> (r: History)
        requires
            count_of(history@, RepetitionKey::of(state)) < 255,
        ensures
            count_of(r@, RepetitionKey::of(state)) == count_of(history@, RepetitionKey::of(state)) + 1,
            forall|other: RepetitionKey|
                other != RepetitionKey::of(state) ==> count_of(r@, other) == count_of(history@, other),
    {
        let key = RepetitionKey::from_state(state);
        let mut next = history.copy();
        let count = history.count(key);
        next.insert(key, count + 1);
        next
    }

    pub closed spec fn spec_config(&self) -> GroundTruthConfig {
        self.config
    }

    pub closed spec fn spec_table(&self) -> Seq<CachedValue> {
        self.table@.map_values(|e: SolverEntry| e.view())
    }

    pub closed spec fn spec_nodes(&self) -> u64 {
        self.nodes
    }

    pub closed spec fn spec_cache_hits(&self) -> u64 {
        self.cache_hits
    }

    pub closed spec fn spec_exhausted(&self) -> bool {
        self.exhausted
    }

    /// Cache hits still affordable: every node expansion pays for up to 4097
    /// later hits.
    pub open spec fn potential(&self) -> int {
        self.spec_cache_hits() + 4097 * (self.spec_config().max_nodes - self.spec_nodes())
    }

    pub fn new(config: GroundTruthConfig) -> (r: Solver)
        ensures
            r.spec_config() == config,
            r.spec_table() == Seq::<CachedValue>::empty(),
            r.spec_nodes() == 0,
            r.spec_cache_hits() == 0,
            !r.spec_exhausted(),
    {
        let r = Solver { config, table: Vec::new(), nodes: 0, cache_hits: 0, exhausted: false };
        proof {
            assert(r.spec_table() =~= Seq::<CachedValue>::empty());
        }
        r
    }

    pub fn config(&self) -> (r: GroundTruthConfig)
        ensures
            r == self.spec_config(),
    {
        self.config
    }

    pub fn cache_hits(&self) -> (r: u64)
        ensures
            r == self.spec_cache_hits(),
    {
        self.cache_hits
    }

    pub fn table_len(&self) -> (r: usize)
        ensures
            r == self.spec_table().len(),
    {
        self.table.len()
    }

    pub fn stats(&self) -> (r: GroundTruthStats)
        ensures
            r == (GroundTruthStats {
                nodes: self.spec_nodes(),
                cache_hits: self.spec_cache_hits(),
                table_entries: self.spec_table().len() as usize,
                exhausted: self.spec_exhausted(),
            }),
    {
        GroundTruthStats {
            nodes: self.nodes,
            cache_hits: self.cache_hits,
            table_entries: self.table.len(),
            exhausted: self.exhausted,
        }
    }

    /// The occurred entries of a history, in key order.
    pub fn history_signature(history: &History) -> (r: Vec<(RepetitionKey, u8)>)
        ensures
            r@ == occurred(history@),
    {
        history.signature()
    }

    /// The cache key of a solve.
    pub fn key(state: GameState, horizon: Option<u16>, history: &History) -> (r: SolverKey)
        ensures
            r.state == state,
            r.horizon == horizon,
            r.history@ == occurred(history@),
    {
        SolverKey { state, horizon, history: history.signature() }
    }

    /// The value of a position that needs no search, if it has one.
    pub fn terminal_value(&self, state: GameState, history: &History, horizon: Option<u16>) -> (r:
        Option<GroundTruthValue>)
        ensures
            r == terminal(
                self.spec_config(),
                state,
                count_of(history@, RepetitionKey::of(state)),
                horizon,
            ),
    {
        if let Some(winner) = state.winner {
            return Some(
                GroundTruthValue {
                    outcome: if winner == state.turn {
                        GroundTruthOutcome::Win
                    } else {
                        GroundTruthOutcome::Loss
                    },
                    distance: Some(0),
                },
            );
        }
        if history.count(RepetitionKey::from_state(state)) >= 3 {
            return Some(GroundTruthValue { outcome: GroundTruthOutcome::Draw, distance: None });
        }
        if let Some(limit) = self.config.max_plies {
            if state.ply >= limit {
                return Some(GroundTruthValue { outcome: GroundTruthOutcome::Draw, distance: None });
            }
        }
        if horizon == Some(0u16) {
            return Some(GroundTruthValue { outcome: GroundTruthOutcome::Unknown, distance: None });
        }
        None
    }

    fn find(&self, state: &GameState, horizon: Option<u16>, history: &Vec<(RepetitionKey, u8)>) -> (r:
        Option<usize>)
        ensures
            match r {
                Some(i) => i < self.spec_table().len() && first_entry(
                    self.spec_table(),
                    *state,
                    horizon,
                    history@,
                    self.spec_table().len(),
                ) == Some(i as int),
                None => first_entry(
                    self.spec_table(),
                    *state,
                    horizon,
                    history@,
                    self.spec_table().len(),
                ) is None,
            },
    {
        let ghost table = self.spec_table();
        let mut i: usize = 0;
        while i < self.table.len()
            invariant
                i <= self.table@.len(),
                table == self.spec_table(),
                table.len() == self.table@.len(),
                first_entry(table, *state, horizon, history@, i as nat) is None,
            decreases self.table@.len() - i,
        {
            let entry = &self.table[i];
            proof {
                assert(table[i as int] == entry.view());
            }
            if same_position_exec(&entry.state, state) && entry.horizon == horizon && same_entries(
                &entry.history,
                history,
            ) {
                proof {
                    lemma_first_entry_stays(table, *state, horizon, history@, i as nat + 1, table.len());
                }
                return Some(i);
            }
            i = i + 1;
        }
        None
    }

    fn store(&mut self, key: SolverKey, value: GroundTruthValue)
        ensures
            final(self).spec_table() == stored(
                old(self).spec_table(),
                key.state,
                key.horizon,
                key.history@,
                value,
            ),
            final(self).spec_config() == old(self).spec_config(),
            final(self).spec_nodes() == old(self).spec_nodes(),
            final(self).spec_cache_hits() == old(self).spec_cache_hits(),
            final(self).spec_exhausted() == old(self).spec_exhausted(),
    {
        let ghost before = self.spec_table();
        match self.find(&key.state, key.horizon, &key.history) {
            Some(i) => {
                let entry = SolverEntry {
                    state: self.table[i].state,
                    horizon: self.table[i].horizon,
                    history: copy_entries(&self.table[i].history),
                    value,
                };
                self.table.set(i, entry);
                proof {
                    assert(self.spec_table() =~= before.update(i as int, CachedValue { value, ..before[i as int] }));
                }
            },
            None => {
                let entry = SolverEntry {
                    state: key.state,
                    horizon: key.horizon,
                    history: key.history,
                    value,
                };
                self.table.push(entry);
                proof {
                    assert(self.spec_table() =~= before.push(
                        CachedValue { state: key.state, horizon: key.horizon, history: key.history@, value },
                    ));
                }
            },
        }
    }
}

proof fn lemma_first_entry_stays(
    table: Seq<CachedValue>,
    state: GameState,
    horizon: Option<u16>,
    history: Seq<(RepetitionKey, u8)>,
    n: nat,
    m: nat,
)
    requires
        n <= m,
        first_entry(table, state, horizon, history, n) is Some,
    ensures
        first_entry(table, state, horizon, history, m) == first_entry(table, state, horizon, history, n),
    decreases m - n,
{
    if n < m {
        lemma_first_entry_stays(table, state, horizon, history, n, (m - 1) as nat);
    }
}

fn same_entries(a: &Vec<(RepetitionKey, u8)>, b: &Vec<(RepetitionKey, u8)>) -> (r: bool)
    ensures
        r == (a@ == b@),
{
    if a.len() != b.len() {
        return false;
    }
    let mut i: usize = 0;
    while i < a.len()
        invariant
            a.len() == b.len(),
            i <= a.len(),
            forall|j: int| 0 <= j < i ==> a@[j] == b@[j],
        decreases a.len() - i,
    {
        if a[i].0 != b[i].0 || a[i].1 != b[i].1 {
            return false;
        }
        i = i + 1;
    }
    proof {
        assert(a@ =~= b@);
    }
    true
}

fn copy_entries(a: &Vec<(RepetitionKey, u8)>) -> (r: Vec<(RepetitionKey, u8)>)
    ensures
        r@ == a@,
{
    let mut r: Vec<(RepetitionKey, u8)> = Vec::new();
    let mut i: usize = 0;
    while i < a.len()
        invariant
            i <= a.len(),
            r@ == a@.take(i as int),
        decreases a.len() - i,
    {
        r.push(a[i]);
        i = i + 1;
        proof {
            assert(r@ =~= a@.take(i as int));
        }
    }
    proof {
        assert(a@.take(a.len() as int) =~= a@);
    }
    r
}

proof fn lemma_cached_after_store(
    table: Seq<CachedValue>,
    state: GameState,
    horizon: Option<u16>,
    history: Seq<(RepetitionKey, u8)>,
    value: GroundTruthValue,
)
    ensures
        cached(stored(table, state, horizon, history, value), state, horizon, history) == Some(value),
{
    let after = stored(table, state, horizon, history, value);
    match first_entry(table, state, horizon, history, table.len()) {
        Some(i) => {
            lemma_first_entry_bounds(table, state, horizon, history, table.len());
            lemma_first_entry_update(table, state, horizon, history, i, value, table.len());
        },
        None => {
            lemma_first_entry_push(table, state, horizon, history, value, table.len());
        },
    }
}

proof fn lemma_first_entry_bounds(
    table: Seq<CachedValue>,
    state: GameState,
    horizon: Option<u16>,
    history: Seq<(RepetitionKey, u8)>,
    n: nat,
)
    ensures
        first_entry(table, state, horizon, history, n) matches Some(i) ==> 0 <= i < n
            && entry_matches(table[i], state, horizon, history),
    decreases n,
{
    if n > 0 {
        lemma_first_entry_bounds(table, state, horizon, history, (n - 1) as nat);
    }
}

proof fn lemma_first_entry_update(
    table: Seq<CachedValue>,
    state: GameState,
    horizon: Option<u16>,
    history: Seq<(RepetitionKey, u8)>,
    i: int,
    value: GroundTruthValue,
    n: nat,
)
    requires
        n <= table.len(),
        0 <= i < table.len(),
        first_entry(table, state, horizon, history, table.len()) == Some(i),
    ensures
        first_entry(table.update(i, CachedValue { value, ..table[i] }), state, horizon, history, n)
            == first_entry(table, state, horizon, history, n),
    decreases n,
{
    if n > 0 {
        lemma_first_entry_update(table, state, horizon, history, i, value, (n - 1) as nat);
    }
}

proof fn lemma_first_entry_push(
    table: Seq<CachedValue>,
    state: GameState,
    horizon: Option<u16>,
    history: Seq<(RepetitionKey, u8)>,
    value: GroundTruthValue,
    n: nat,
)
    requires
        n <= table.len(),
        first_entry(table, state, horizon, history, table.len()) is None,
    ensures
        first_entry(table.push(CachedValue { state, horizon, history, value }), state, horizon, history, n)
            == first_entry(table, state, horizon, history, n),
        first_entry(table.push(CachedValue { state, horizon, history, value }), state, horizon, history, table.len() + 1)
            == Some(table.len() as int),
    decreases n,
{
    if n > 0 {
        lemma_first_entry_push(table, state, horizon, history, value, (n - 1) as nat);
    }
    let pushed = table.push(CachedValue { state, horizon, history, value });
    lemma_first_entry_prefix(pushed, table, state, horizon, history, table.len());
}

proof fn lemma_first_entry_prefix(
    longer: Seq<CachedValue>,
    table: Seq<CachedValue>,
    state: GameState,
    horizon: Option<u16>,
    history: Seq<(RepetitionKey, u8)>,
    n: nat,
)
    requires
        n <= table.len() <= longer.len(),
        forall|j: int| 0 <= j < table.len() ==> longer[j] == table[j],
    ensures
        first_entry(longer, state, horizon, history, n) == first_entry(table, state, horizon, history, n),
    decreases n,
{
    if n > 0 {
        lemma_first_entry_prefix(longer, table, state, horizon, history, (n - 1) as nat);
    }
}

/// What one solve call does, given the solver before and after it.
pub open spec fn solved(
    before: Solver,
    after: Solver,
    state: GameState,
    history: Seq<(RepetitionKey, u8)>,
    horizon: Option<u16>,
    r: GroundTruthValue,
) -> bool {
    let signature = occurred(history);
    let unknown = GroundTruthValue { outcome: GroundTruthOutcome::Unknown, distance: None };
    let draw = GroundTruthValue { outcome: GroundTruthOutcome::Draw, distance: None };
    let same_counters = after.spec_nodes() == before.spec_nodes() && after.spec_exhausted()
        == before.spec_exhausted();
    match cached(before.spec_table(), state, horizon, signature) {
        Some(value) => r == value && after.spec_table() == before.spec_table() && same_counters
            && after.spec_cache_hits() == before.spec_cache_hits() + 1,
        None => match terminal(
            before.spec_config(),
            state,
            count_of(history, RepetitionKey::of(state)),
            horizon,
        ) {
            Some(value) => r == value && after.spec_table() == stored(
                before.spec_table(),
                state,
                horizon,
                signature,
                value,
            ) && same_counters && after.spec_cache_hits() == before.spec_cache_hits(),
            None => if before.spec_nodes() >= before.spec_config().max_nodes {
                r == unknown && after.spec_exhausted() && after.spec_table() == before.spec_table()
                    && after.spec_nodes() == before.spec_nodes() && after.spec_cache_hits()
                    == before.spec_cache_hits()
            } else if state.spec_legal_actions().len() == 0 {
                r == draw && after.spec_nodes() == before.spec_nodes() + 1 && after.spec_table()
                    == stored(before.spec_table(), state, horizon, signature, draw)
            } else if state.ply == u16::MAX {
                r == unknown && after.spec_exhausted() && after.spec_nodes() == before.spec_nodes()
                    + 1
            } else {
                after.spec_nodes() > before.spec_nodes() && searched_value(
                    r,
                    state.spec_legal_actions().len(),
                ) && (r.outcome.known() ==> cached(after.spec_table(), state, horizon, signature)
                    == Some(r))
            },
        },
    }
}

impl Solver {
    /// Solve a position under a repetition history and a horizon. A node is
    /// expanded only within the node budget; a position whose ply counter is
    /// full is not expanded and stays unknown.
    pub fn solve(&mut self, state: GameState, history: &History, horizon: Option<u16>) -> (r:
        GroundTruthValue)
        requires
            state.inventory_kept(),
            old(self).spec_nodes() <= old(self).spec_config().max_nodes,
            old(self).potential() < u64::MAX,
            history_bounded(history@, state),
        ensures
            final(self).spec_config() == old(self).spec_config(),
            old(self).spec_nodes() <= final(self).spec_nodes() <= final(self).spec_config().max_nodes,
            final(self).potential() <= old(self).potential() + 1,
            old(self).spec_exhausted() ==> final(self).spec_exhausted(),
            solved(*old(self), *final(self), state, history@, horizon, r),
        decreases old(self).spec_config().max_nodes - old(self).spec_nodes(),
    {
        let signature = history.signature();
        match self.find(&state, horizon, &signature) {
            Some(i) => {
                proof {
                    assert(self.spec_table()[i as int] == self.table@[i as int].view());
                }
                self.cache_hits = self.cache_hits + 1;
                return self.table[i].value;
            },
            None => {},
        }
        let key = SolverKey { state, horizon, history: signature };
        if let Some(value) = self.terminal_value(state, history, horizon) {
            self.store(key, value);
            return value;
        }
        if self.nodes >= self.config.max_nodes {
            self.exhausted = true;
            return GroundTruthValue { outcome: GroundTruthOutcome::Unknown, distance: None };
        }
        self.nodes = self.nodes + 1;
        let actions = state.legal_actions();
        if actions.len() == 0 {
            let value = GroundTruthValue { outcome: GroundTruthOutcome::Draw, distance: None };
            self.store(key, value);
            return value;
        }
        if state.ply == u16::MAX {
            self.exhausted = true;
            return GroundTruthValue { outcome: GroundTruthOutcome::Unknown, distance: None };
        }
        proof {
            lemma_legal_action_bound(state);
        }
        let next_horizon = match horizon {
            Some(remaining) => Some(
                if remaining > 0 {
                    remaining - 1
                } else {
                    0
                },
            ),
            None => None,
        };
        let ghost entry_nodes = old(self).spec_nodes();
        let ghost entry_potential = old(self).potential();
        let mut labels: Vec<GroundTruthValue> = Vec::new();
        let mut k: usize = 0;
        while k < actions.len() && (k == 0 || labels[k - 1].outcome != GroundTruthOutcome::Win)
            invariant
                state.inventory_kept(),
                state.ply < u16::MAX,
                actions@ == state.spec_legal_actions(),
                actions@.len() <= 4096,
                history_bounded(history@, state),
                count_of(history@, RepetitionKey::of(state)) < 3,
                k <= actions@.len(),
                labels@.len() == k,
                forall|j: int| 0 <= j < k - 1 ==> !is_win(#[trigger] labels@[j]),
                self.spec_config() == old(self).spec_config(),
                entry_nodes == old(self).spec_nodes(),
                entry_potential == old(self).potential(),
                entry_nodes < self.spec_nodes() <= self.spec_config().max_nodes,
                self.potential() <= entry_potential - 4097 + k,
                entry_potential < u64::MAX,
                old(self).spec_exhausted() ==> self.spec_exhausted(),
            decreases actions@.len() - k,
        {
            let action = actions[k];
            proof {
                assert(state.spec_legal_actions().contains(action)) by {
                    assert(actions@[k as int] == action);
                }
                crate::rules::law_play_keeps_inventory(state, action);
            }
            let child = state.apply_legal(action).state;
            let child_history = Solver::next_history(history, child);
            proof {
                assert forall|key: RepetitionKey|
                    #[trigger] count_of(child_history@, key) <= 3 || (key == RepetitionKey::of(child)
                        && count_of(child_history@, key) <= 4) by {
                    if key != RepetitionKey::of(child) {
                        assert(count_of(history@, key) <= 3 || (key == RepetitionKey::of(state) && count_of(history@, key) <= 4));
                    } else {
                        assert(count_of(history@, key) <= 3 || (key == RepetitionKey::of(state) && count_of(history@, key) <= 4));
                    }
                }
            }
            let child_value = self.solve(child, &child_history, next_horizon);
            let label = GroundTruthValue {
                outcome: child_value.outcome.negate(),
                distance: match child_value.distance {
                    Some(d) => Some(
                        if d < u16::MAX {
                            d + 1
                        } else {
                            d
                        },
                    ),
                    None => None,
                },
            };
            labels.push(label);
            k = k + 1;
        }
        let complete = labels.len() == state.legal_action_count();
        let value = aggregate_values(labels.as_slice(), complete);
        proof {
            assert(searched_value(value, state.spec_legal_actions().len())) by {
                if labels@.len() < actions@.len() {
                    assert(is_win(labels@.last()));
                }
            }
        }
        if value.outcome.is_known() {
            let ghost before_store = self.spec_table();
            let ghost key_history = key.history@;
            self.store(key, value);
            proof {
                lemma_cached_after_store(before_store, state, horizon, key_history, value);
            }
        }
        value
    }
}

// ---------------------------------------------------------------------------
// Analysis
// ---------------------------------------------------------------------------

pub open spec fn label_value(label: GroundTruthAction) -> GroundTruthValue {
    GroundTruthValue { outcome: label.outcome, distance: label.distance }
}

/// The values of action labels.
pub open spec fn label_values(labels: Seq<GroundTruthAction>) -> Seq<GroundTruthValue> {
    labels.map_values(|label: GroundTruthAction| label_value(label))
}

/// The actions of the labels below `n` whose outcome is `outcome`.
pub open spec fn actions_with(labels: Seq<GroundTruthAction>, outcome: GroundTruthOutcome, n: nat) -> Seq<
    Action,
>
    decreases n,
{
    if n == 0 {
        Seq::empty()
    } else {
        let rest = actions_with(labels, outcome, (n - 1) as nat);
        if labels[n - 1].outcome == outcome {
            rest.push(labels[n - 1].action)
        } else {
            rest
        }
    }
}

/// The value of a position without legal actions: its terminal value, or
/// unknown on a zero budget, or a draw.
pub open spec fn actionless_value(state: GameState, config: GroundTruthConfig) -> GroundTruthValue {
    match terminal(config, state, 1, config.horizon) {
        Some(value) => value,
        None => if config.max_nodes == 0 {
            GroundTruthValue { outcome: GroundTruthOutcome::Unknown, distance: None }
        } else {
            GroundTruthValue { outcome: GroundTruthOutcome::Draw, distance: None }
        },
    }
}

/// The one-step distance of a child value, seen from the parent.
pub open spec fn parent_distance(distance: Option<u16>) -> Option<u16> {
    match distance {
        Some(d) => Some(
            if d < u16::MAX {
                (d + 1) as u16
            } else {
                d
            },
        ),
        None => None,
    }
}

/// Every cached position that is not decided holds an unknown value.
pub open spec fn undecided_unknown(table: Seq<CachedValue>) -> bool {
    forall|i: int|
        0 <= i < table.len() && (#[trigger] table[i]).state.winner is None ==> table[i].value.outcome
            == GroundTruthOutcome::Unknown
}

/// A configuration under which no undecided position can be valued: no ply
/// limit, and either no horizon left or no node to spend.
pub open spec fn cut_off(config: GroundTruthConfig) -> bool {
    &&& config.max_plies is None
    &&& config.horizon == Some(0u16) || config.max_nodes == 0
}

/// Under a cut-off, a solve call values an undecided position as unknown and
/// stores nothing else of undecided positions.
proof fn lemma_cut_off_solve(
    before: Solver,
    after: Solver,
    state: GameState,
    history: Seq<(RepetitionKey, u8)>,
    horizon: Option<u16>,
    r: GroundTruthValue,
)
    requires
        before.spec_config().max_plies is None,
        horizon == Some(0u16) || before.spec_config().max_nodes == 0,
        count_of(history, RepetitionKey::of(state)) < 3,
        undecided_unknown(before.spec_table()),
        solved(before, after, state, history, horizon, r),
    ensures
        undecided_unknown(after.spec_table()),
        state.winner is None ==> r.outcome == GroundTruthOutcome::Unknown,
{
    let table = before.spec_table();
    let signature = occurred(history);
    lemma_first_entry_bounds(table, state, horizon, signature, table.len());
    match cached(table, state, horizon, signature) {
        Some(value) => {},
        None => {
            match terminal(before.spec_config(), state, count_of(history, RepetitionKey::of(state)), horizon) {
                Some(value) => {
                    let after_table = stored(table, state, horizon, signature, value);
                    assert forall|i: int|
                        0 <= i < after_table.len() && (#[trigger] after_table[i]).state.winner is None implies after_table[i].value.outcome
                            == GroundTruthOutcome::Unknown by {
                        match first_entry(table, state, horizon, signature, table.len()) {
                            Some(e) => {
                                if i != e {
                                    assert(after_table[i] == table[i]);
                                }
                            },
                            None => {
                                if i < table.len() {
                                    assert(after_table[i] == table[i]);
                                }
                            },
                        }
                    }
                },
                None => {},
            }
        },
    }
}

/// Every cached position that is not decided and has reached ply `limit`
/// holds a draw.
pub open spec fn undecided_limit_draw(table: Seq<CachedValue>, limit: u16) -> bool {
    forall|i: int|
        0 <= i < table.len() && (#[trigger] table[i]).state.winner is None && table[i].state.ply >= limit
            ==> table[i].value.outcome == GroundTruthOutcome::Draw
}

/// A solve call on a position at or past the ply limit draws it when it is
/// not decided, and stores no other value for such positions.
proof fn lemma_ply_limit_solve(
    before: Solver,
    after: Solver,
    state: GameState,
    history: Seq<(RepetitionKey, u8)>,
    horizon: Option<u16>,
    r: GroundTruthValue,
    limit: u16,
)
    requires
        before.spec_config().max_plies == Some(limit),
        state.ply >= limit,
        undecided_limit_draw(before.spec_table(), limit),
        solved(before, after, state, history, horizon, r),
    ensures
        undecided_limit_draw(after.spec_table(), limit),
        state.winner is None ==> r.outcome == GroundTruthOutcome::Draw,
{
    let table = before.spec_table();
    let signature = occurred(history);
    lemma_first_entry_bounds(table, state, horizon, signature, table.len());
    match cached(table, state, horizon, signature) {
        Some(value) => {},
        None => {
            let value = terminal(before.spec_config(), state, count_of(history, RepetitionKey::of(state)), horizon).unwrap();
            let after_table = stored(table, state, horizon, signature, value);
            assert forall|i: int|
                0 <= i < after_table.len() && (#[trigger] after_table[i]).state.winner is None && after_table[i].state.ply
                    >= limit implies after_table[i].value.outcome == GroundTruthOutcome::Draw by {
                match first_entry(table, state, horizon, signature, table.len()) {
                    Some(e) => {
                        if i != e {
                            assert(after_table[i] == table[i]);
                        }
                    },
                    None => {
                        if i < table.len() {
                            assert(after_table[i] == table[i]);
                        }
                    },
                }
            }
        },
    }
}

/// Analyze a fresh position with strict exact/unknown semantics: label every
/// legal action from the mover's point of view, aggregate the labels, and
/// list the optimal actions only when the root value is exact.
pub fn analyze(state: GameState, config: GroundTruthConfig) -> (r: GroundTruthAnalysis)
    requires
        state.inventory_kept(),
        state.spec_legal_actions().len() > 0 ==> state.ply < u16::MAX,
        config.max_nodes <= 0x1_0000_0000_0000,
    ensures
        r.actions@.len() == state.spec_legal_actions().len(),
        forall|i: int| 0 <= i < r.actions@.len() ==> (#[trigger] r.actions@[i]).action == state.spec_legal_actions()[i],
        state.spec_legal_actions().len() > 0 ==> (GroundTruthValue {
            outcome: r.outcome,
            distance: r.distance,
        }) == aggregate(label_values(r.actions@), true),
        state.spec_legal_actions().len() == 0 ==> (GroundTruthValue {
            outcome: r.outcome,
            distance: r.distance,
        }) == actionless_value(state, config),
        r.optimal_actions_complete == (r.outcome.known() && forall|i: int|
            0 <= i < r.actions@.len() ==> (#[trigger] r.actions@[i]).outcome.known()),
        r.optimal_actions@ == (if r.outcome.known() {
            actions_with(r.actions@, r.outcome, r.actions@.len())
        } else {
            Seq::empty()
        }),
        r.stats.nodes <= config.max_nodes,
        cut_off(config) ==> forall|i: int|
            0 <= i < r.actions@.len() && state.spec_apply(state.spec_legal_actions()[i]).state.winner is None
                ==> (#[trigger] r.actions@[i]).outcome == GroundTruthOutcome::Unknown,
        config.max_plies matches Some(limit) && state.ply >= limit ==> forall|i: int|
            0 <= i < r.actions@.len() && state.spec_apply(state.spec_legal_actions()[i]).state.winner is None
                ==> (#[trigger] r.actions@[i]).outcome == GroundTruthOutcome::Draw,
{
    let mut solver = Solver::new(config);
    let mut history = History::new();
    history.insert(RepetitionKey::from_state(state), 1);
    let root_horizon = config.horizon;
    proof {
        assert forall|key: RepetitionKey| #[trigger] count_of(history@, key) <= 3 || (key
            == RepetitionKey::of(state) && count_of(history@, key) <= 4) by {
            if key != RepetitionKey::of(state) {
                assert(count_of(Seq::<(RepetitionKey, u8)>::empty(), key) == 0);
            }
        }
    }
    let ghost fresh = solver;
    let first_value = solver.solve(state, &history, root_horizon);
    let ghost after_first = solver;
    proof {
        if cut_off(config) {
            assert(fresh.spec_table() == Seq::<CachedValue>::empty());
            lemma_cut_off_solve(fresh, after_first, state, history@, root_horizon, first_value);
        }
        if let Some(limit) = config.max_plies {
            if state.ply >= limit {
                lemma_ply_limit_solve(fresh, after_first, state, history@, root_horizon, first_value, limit);
            }
        }
    }
    let actions = state.legal_actions();
    proof {
        lemma_legal_action_bound(state);
    }
    let next_horizon = match root_horizon {
        Some(remaining) => Some(
            if remaining > 0 {
                remaining - 1
            } else {
                0
            },
        ),
        None => None,
    };
    let mut labels: Vec<GroundTruthAction> = Vec::new();
    let mut k: usize = 0;
    while k < actions.len()
        invariant
            state.inventory_kept(),
            actions@.len() > 0 ==> state.ply < u16::MAX,
            actions@ == state.spec_legal_actions(),
            actions@.len() <= 4096,
            count_of(history@, RepetitionKey::of(state)) == 1,
            forall|key: RepetitionKey| key != RepetitionKey::of(state) ==> #[trigger] count_of(history@, key) == 0,
            k <= actions@.len(),
            labels@.len() == k,
            forall|j: int| 0 <= j < k ==> (#[trigger] labels@[j]).action == actions@[j],
            solver.spec_config() == config,
            config.max_nodes <= 0x1_0000_0000_0000,
            solver.spec_nodes() <= config.max_nodes,
            solver.potential() <= 4097 * config.max_nodes + 1 + k,
            actions@.len() == 0 ==> solver == after_first,
            cut_off(config) ==> undecided_unknown(solver.spec_table()),
            config.max_plies is Some && state.ply >= config.max_plies.unwrap() ==> undecided_limit_draw(
                solver.spec_table(),
                config.max_plies.unwrap(),
            ),
            config.max_plies is Some && state.ply >= config.max_plies.unwrap() ==> forall|j: int|
                0 <= j < k && state.spec_apply(actions@[j]).state.winner is None ==> (#[trigger] labels@[j]).outcome
                    == GroundTruthOutcome::Draw,
            cut_off(config) ==> next_horizon == Some(0u16) || config.max_nodes == 0,
            cut_off(config) ==> forall|j: int|
                0 <= j < k && state.spec_apply(actions@[j]).state.winner is None ==> (#[trigger] labels@[j]).outcome
                    == GroundTruthOutcome::Unknown,
        decreases actions@.len() - k,
    {
        let action = actions[k];
        proof {
            assert(state.spec_legal_actions().contains(action)) by {
                assert(actions@[k as int] == action);
            }
            crate::rules::law_play_keeps_inventory(state, action);
        }
        let child = state.apply_legal(action).state;
        let child_history = Solver::next_history(&history, child);
        proof {
            assert forall|key: RepetitionKey|
                #[trigger] count_of(child_history@, key) <= 3 || (key == RepetitionKey::of(child)
                    && count_of(child_history@, key) <= 4) by {
                if key != RepetitionKey::of(child) {
                    if key != RepetitionKey::of(state) {
                        assert(count_of(history@, key) == 0);
                    }
                }
            }
        }
        let ghost before_child = solver;
        let child_value = solver.solve(child, &child_history, next_horizon);
        proof {
            if cut_off(config) {
                if RepetitionKey::of(child) != RepetitionKey::of(state) {
                    assert(count_of(history@, RepetitionKey::of(child)) == 0);
                }
                lemma_cut_off_solve(before_child, solver, child, child_history@, next_horizon, child_value);
            }
            if let Some(limit) = config.max_plies {
                if state.ply >= limit {
                    lemma_ply_limit_solve(before_child, solver, child, child_history@, next_horizon, child_value, limit);
                }
            }
        }
        labels.push(
            GroundTruthAction {
                action,
                outcome: child_value.outcome.negate(),
                distance: match child_value.distance {
                    Some(d) => Some(
                        if d < u16::MAX {
                            d + 1
                        } else {
                            d
                        },
                    ),
                    None => None,
                },
            },
        );
        k = k + 1;
    }
    let mut values: Vec<GroundTruthValue> = Vec::new();
    let mut j: usize = 0;
    while j < labels.len()
        invariant
            j <= labels@.len(),
            values@ == labels@.take(j as int).map_values(|label: GroundTruthAction| label_value(label)),
        decreases labels@.len() - j,
    {
        values.push(GroundTruthValue { outcome: labels[j].outcome, distance: labels[j].distance });
        j = j + 1;
        proof {
            assert(values@ =~= labels@.take(j as int).map_values(|label: GroundTruthAction| label_value(label)));
        }
    }
    proof {
        assert(labels@.take(labels@.len() as int) =~= labels@);
    }
    let root = if actions.len() == 0 {
        let value = solver.solve(state, &history, root_horizon);
        proof {
            let signature = occurred(history@);
            assert(fresh.spec_table() == Seq::<CachedValue>::empty());
            assert(cached(fresh.spec_table(), state, root_horizon, signature) is None);
            match terminal(config, state, 1, root_horizon) {
                Some(v) => {
                    lemma_cached_after_store(fresh.spec_table(), state, root_horizon, signature, v);
                },
                None => {
                    if config.max_nodes > 0 {
                        lemma_cached_after_store(
                            fresh.spec_table(),
                            state,
                            root_horizon,
                            signature,
                            GroundTruthValue { outcome: GroundTruthOutcome::Draw, distance: None },
                        );
                    }
                },
            }
        }
        value
    } else {
        aggregate_values(values.as_slice(), true)
    };
    let mut all_known = true;
    let mut optimal: Vec<Action> = Vec::new();
    let root_known = root.outcome.is_known();
    let mut i: usize = 0;
    while i < labels.len()
        invariant
            i <= labels@.len(),
            all_known == forall|j: int| 0 <= j < i ==> (#[trigger] labels@[j]).outcome.known(),
            optimal@ == actions_with(labels@, root.outcome, i as nat),
        decreases labels@.len() - i,
    {
        if !labels[i].outcome.is_known() {
            all_known = false;
        }
        if labels[i].outcome == root.outcome {
            optimal.push(labels[i].action);
        }
        i = i + 1;
    }
    let optimal_actions = if root_known {
        optimal
    } else {
        Vec::new()
    };
    GroundTruthAnalysis {
        outcome: root.outcome,
        distance: root.distance,
        actions: labels,
        optimal_actions_complete: root_known && all_known,
        optimal_actions,
        stats: solver.stats(),
    }
}

} // verus!
