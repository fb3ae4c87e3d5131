//! Self-play: the agents that take part in a match, the seeded Mulberry32
//! generator shared with the browser, the game phase that contextual agents
//! key their weights by, and the match loop that records a game.

use vstd::prelude::*;
use vstd::wrapping::u32_specs;

use crate::bitboard::{bit_count, popcount};
use crate::ground_truth::RepetitionKey;
use crate::rules::{contains_action, law_play_keeps_inventory, lemma_legal_action_bound, Action, BoardConfig, GameState, Player};
use crate::search::{
    lunatic_action, lunatic_prefers, lunatic_score, search_best_action, search_best_action_with_deadline,
    search_best_action_with_root_probe, search_best_action_with_tactical_filter,
    search_best_action_with_tactical_filter_deadline, search_best_action_with_tactical_guard,
    search_best_action_with_tt_order, wins_at_once, root_best, beam_covers, EvaluationWeights, SearchConfig, SearchResult,
    NEG_INF, POS_INF,
};

verus! {

#[derive(Clone, Copy, Debug, PartialEq, Eq, Structural)]
pub struct MatchOptions {
    pub seed: u32,
    pub max_plies: u16,
    pub opening_random_plies: u16,
    pub board_size: u8,
    pub reserve_per_player: u8,
}

impl Default for MatchOptions {
    fn default() -> (r: Self)
        ensures
            r == (MatchOptions {
                seed: 20_260_823,
                max_plies: 180,
                opening_random_plies: 2,
                board_size: 7,
                reserve_per_player: 14,
            }),
    {
        MatchOptions {
            seed: 20_260_823,
            max_plies: 180,
            opening_random_plies: 2,
            board_size: 7,
            reserve_per_player: 14,
        }
    }
}

#[derive(Clone, Copy, Debug, PartialEq, Eq, Structural)]
pub enum TerminationReason {
    Path,
    ThreefoldRepetition,
    MaxPlies,
    NoLegalAction,
}

impl TerminationReason {
    pub fn as_str(self) -> (r: &'static str)
        ensures
            r@ == (match self {
                TerminationReason::Path => "path"@,
                TerminationReason::ThreefoldRepetition => "threefold-repetition"@,
                TerminationReason::MaxPlies => "max-plies"@,
                TerminationReason::NoLegalAction => "no-legal-action"@,
            }),
    {
        match self {
            Self::Path => "path",
            Self::ThreefoldRepetition => "threefold-repetition",
            Self::MaxPlies => "max-plies",
            Self::NoLegalAction => "no-legal-action",
        }
    }
}

/// The game phase of a position: 0 opening (fewer than eight pieces on the
/// board), 2 movement (both reserves empty), 3 late game (twenty or more
/// pieces), 1 placement otherwise.
pub open spec fn phase_of(state: GameState) -> usize {
    let occupied = bit_count(state.light | state.dark);
    if occupied < 8 {
        0
    } else if state.reserve[0] + state.reserve[1] == 0 {
        2
    } else if occupied >= 20 {
        3
    } else {
        1
    }
}

pub fn contextual_phase_index(state: GameState) -> (r: usize)
    ensures
        r == phase_of(state),
{
    let occupied = popcount(state.light | state.dark);
    let reserves = state.reserve[0] as u32 + state.reserve[1] as u32;
    if occupied < 8 {
        0
    } else if reserves == 0 {
        2
    } else if occupied >= 20 {
        3
    } else {
        1
    }
}

/// The state that the generator moves to before producing a number.
pub open spec fn mulberry_advance(state: u32) -> u32 {
    u32_specs::wrapping_add(state, 0x6D2B_79F5)
}

/// The number that the generator produces from an advanced state.
pub open spec fn mulberry_output(state: u32) -> u32 {
    let mixed = u32_specs::wrapping_mul(state ^ (state >> 15), state | 1);
    let folded = mixed ^ u32_specs::wrapping_add(
        mixed,
        u32_specs::wrapping_mul(mixed ^ (mixed >> 7), mixed | 61),
    );
    folded ^ (folded >> 14)
}

/// The index that a generator output picks among `len` values: the output
/// scaled from `[0, 2^32)` onto `[0, len)`.
pub open spec fn scaled_index(output: u32, len: nat) -> nat {
    (output as nat * len) / 0x1_0000_0000
}

/// The Mulberry32 generator that the browser client also uses.
#[derive(Clone, Copy, Debug)]
pub struct Mulberry32(u32);

impl Mulberry32 {
    pub closed spec fn spec_state(&self) -> u32 {
        self.0
    }

    pub fn new(seed: u32) -> (r: Self)
        ensures
            r.spec_state() == seed,
    {
        Mulberry32(seed)
    }

    pub fn next_u32(&mut self) -> (r: u32)
        ensures
            final(self).spec_state() == mulberry_advance(old(self).spec_state()),
            r == mulberry_output(final(self).spec_state()),
    {
        self.0 = self.0.wrapping_add(0x6D2B_79F5);
        let mut result = self.0;
        result = (result ^ (result >> 15)).wrapping_mul(result | 1);
        result = result ^ result.wrapping_add((result ^ (result >> 7)).wrapping_mul(result | 61));
        result ^ (result >> 14)
    }

    /// Pick one of `values` by the next generator output; an empty list picks
    /// nothing and leaves the generator as it was.
    pub fn choose_value<T: Copy>(&mut self, values: &[T]) -> (r: Option<T>)
        requires
            values@.len() <= u32::MAX,
        ensures
            values@.len() == 0 ==> r is None && final(self).spec_state() == old(self).spec_state(),
            values@.len() > 0 ==> {
                &&& final(self).spec_state() == mulberry_advance(old(self).spec_state())
                &&& scaled_index(mulberry_output(final(self).spec_state()), values@.len())
                    < values@.len()
                &&& r == Some(
                    values@[scaled_index(
                        mulberry_output(final(self).spec_state()),
                        values@.len(),
                    ) as int],
                )
            },
    {
        if values.len() == 0 {
            return None;
        }
        let output = self.next_u32();
        let len = values.len() as u64;
        proof {
            assert(output as u64 * len <= 0xffff_ffff * 0xffff_ffff) by (nonlinear_arith)
                requires
                    output <= 0xffff_ffff,
                    len <= 0xffff_ffff,
            ;
            assert((output as nat * len as nat) / 0x1_0000_0000 < len as nat) by (nonlinear_arith)
                requires
                    output <= 0xffff_ffff,
                    len >= 1,
            ;
        }
        let index = ((output as u64 * len) / 0x1_0000_0000) as usize;
        Some(values[index])
    }
}


// ---------------------------------------------------------------------------
// Agents
// ---------------------------------------------------------------------------

/// A participant in a self-play match.
#[derive(Clone, Debug)]
pub enum Agent {
    /// Plays a legal action drawn from the match generator.
    Random { id: String },
    /// The one-ply breadth baseline.
    Lunatic { id: String },
    /// Pathfinder, optionally under a wall-clock deadline.
    Search { id: String, config: SearchConfig, deadline_ms: Option<u32> },
    /// Pathfinder with a bounded exact root scout.
    SearchProbe {
        id: String,
        config: SearchConfig,
        probe_depth: u8,
        probe_nodes: u64,
        probe_actions: usize,
    },
    /// Pathfinder with table/killer move ordering enabled for all roots.
    SearchTtOrder { id: String, config: SearchConfig },
    /// Pathfinder with the bounded immediate-threat root ordering guard.
    SearchTacticalGuard { id: String, config: SearchConfig },
    /// Pathfinder restricted to roots without an immediate losing reply.
    SearchTacticalFilter { id: String, config: SearchConfig, deadline_ms: Option<u32> },
    /// The tactical-safe Pathfinder with one configuration per game phase.
    Contextual { id: String, configs: [SearchConfig; 4], deadline_ms: Option<u32> },
    /// As `Contextual`, with separate phase configurations for each colour.
    ContextualByPlayer {
        id: String,
        light_configs: [SearchConfig; 4],
        dark_configs: [SearchConfig; 4],
        deadline_ms: Option<u32>,
    },
}

/// The four phase configurations all keep the search inside its bounds.
pub open spec fn phases_fit(configs: [SearchConfig; 4]) -> bool {
    forall|i: int| 0 <= i < 4 ==> (#[trigger] configs@[i]).fits()
}

/// The configuration that stands for no search at all.
pub open spec fn no_search() -> SearchConfig {
    SearchConfig {
        depth: 0,
        max_nodes: 0,
        beam_width: 0,
        weights: EvaluationWeights { path: 0, material: 0, capture: 0, structure: 0, threat: 0, edge: 0 },
        tactical_proof_horizon: None,
    }
}

/// The evaluator weights the coin flip and the Lunatic baseline report.
pub open spec fn reported_default_weights() -> EvaluationWeights {
    EvaluationWeights { path: 240, material: 110, capture: 700, structure: 55, threat: 130, edge: 80 }
}

impl Agent {
    pub open spec fn spec_id(&self) -> Seq<char> {
        match self {
            Agent::Random { id } => id@,
            Agent::Lunatic { id } => id@,
            Agent::Search { id, .. } => id@,
            Agent::SearchProbe { id, .. } => id@,
            Agent::SearchTtOrder { id, .. } => id@,
            Agent::SearchTacticalGuard { id, .. } => id@,
            Agent::SearchTacticalFilter { id, .. } => id@,
            Agent::Contextual { id, .. } => id@,
            Agent::ContextualByPlayer { id, .. } => id@,
        }
    }

    /// The agents whose search configurations keep every score and counter
    /// inside the search bounds.
    pub open spec fn fits(&self) -> bool {
        match self {
            Agent::Random { .. } => true,
            Agent::Lunatic { .. } => true,
            Agent::Search { config, .. } => config.fits(),
            Agent::SearchProbe { config, .. } => config.fits(),
            Agent::SearchTtOrder { config, .. } => config.fits(),
            Agent::SearchTacticalGuard { config, .. } => config.fits(),
            Agent::SearchTacticalFilter { config, .. } => config.fits(),
            Agent::Contextual { configs, .. } => phases_fit(*configs),
            Agent::ContextualByPlayer { light_configs, dark_configs, .. } => phases_fit(
                *light_configs,
            ) && phases_fit(*dark_configs),
        }
    }

    /// The configuration a searching agent runs in `state`: the phase
    /// configuration for contextual agents, of the mover's colour where the
    /// agent keeps one per colour.
    pub open spec fn config_for(&self, state: GameState) -> SearchConfig {
        match self {
            Agent::Random { .. } => no_search(),
            Agent::Lunatic { .. } => no_search(),
            Agent::Search { config, .. } => *config,
            Agent::SearchProbe { config, .. } => *config,
            Agent::SearchTtOrder { config, .. } => *config,
            Agent::SearchTacticalGuard { config, .. } => *config,
            Agent::SearchTacticalFilter { config, .. } => *config,
            Agent::Contextual { configs, .. } => configs@[phase_of(state) as int],
            Agent::ContextualByPlayer { light_configs, dark_configs, .. } => if state.turn
                == Player::Light {
                light_configs@[phase_of(state) as int]
            } else {
                dark_configs@[phase_of(state) as int]
            },
        }
    }

    /// The configuration a record reports for the agent: the searched one,
    /// the opening one for contextual agents (Light's for per-colour ones).
    pub open spec fn reported_config(&self) -> SearchConfig {
        match self {
            Agent::Contextual { configs, .. } => configs@[0],
            Agent::ContextualByPlayer { light_configs, .. } => light_configs@[0],
            _ => self.config_for(GameState::initial(crate::rules::BoardConfig { board_size: 7, reserve_per_player: 14, max_plies: 180 })),
        }
    }

    pub open spec fn spec_name(&self) -> Seq<char> {
        match self {
            Agent::Random { .. } => "Coin Flip"@,
            Agent::Lunatic { .. } => "Lunatic"@,
            Agent::Search { .. } => "Rust Search"@,
            Agent::SearchProbe { .. } => "Rust Pathfinder · root probe"@,
            Agent::SearchTtOrder { .. } => "Rust Pathfinder · TT ordering"@,
            Agent::SearchTacticalGuard { .. } => "Rust Pathfinder · tactical root guard"@,
            Agent::SearchTacticalFilter { .. } => "Rust Pathfinder · tactical root filter"@,
            Agent::Contextual { .. } => "Rust Pathfinder · contextual evaluator"@,
            Agent::ContextualByPlayer { .. } => "Rust Pathfinder · contextual evaluator by player"@,
        }
    }

    pub open spec fn spec_kind(&self) -> Seq<char> {
        match self {
            Agent::Random { .. } => "random"@,
            Agent::Lunatic { .. } => "heuristic"@,
            _ => "search"@,
        }
    }

    pub open spec fn spec_deadline(&self) -> Option<u32> {
        match self {
            Agent::Search { deadline_ms, .. } => *deadline_ms,
            Agent::SearchTacticalFilter { deadline_ms, .. } => *deadline_ms,
            Agent::Contextual { deadline_ms, .. } => *deadline_ms,
            Agent::ContextualByPlayer { deadline_ms, .. } => *deadline_ms,
            _ => None,
        }
    }

    pub fn random(id: &str) -> (r: Self)
        ensures
            r is Random,
            r.spec_id() == id@,
    {
        Agent::Random { id: id.to_owned() }
    }

    pub fn lunatic(id: &str) -> (r: Self)
        ensures
            r is Lunatic,
            r.spec_id() == id@,
    {
        Agent::Lunatic { id: id.to_owned() }
    }

    pub fn search(id: &str, config: SearchConfig) -> (r: Self)
        ensures
            r matches Agent::Search { config: c, deadline_ms: d, .. } && c == config && d is None,
            r.spec_id() == id@,
    {
        Agent::Search { id: id.to_owned(), config, deadline_ms: None }
    }

    pub fn search_with_deadline(id: &str, config: SearchConfig, deadline_ms: u32) -> (r: Self)
        requires
            deadline_ms > 0,
        ensures
            r matches Agent::Search { config: c, deadline_ms: d, .. } && c == config && d == Some(
                deadline_ms,
            ),
            r.spec_id() == id@,
    {
        Agent::Search { id: id.to_owned(), config, deadline_ms: Some(deadline_ms) }
    }

    pub fn search_probe(
        id: &str,
        config: SearchConfig,
        probe_depth: u8,
        probe_nodes: u64,
        probe_actions: usize,
    ) -> (r: Self)
        requires
            probe_depth > 0,
            probe_nodes > 0,
            probe_actions > 0,
        ensures
            r matches Agent::SearchProbe { config: c, probe_depth: d, probe_nodes: n, probe_actions: a, .. }
                && c == config && d == probe_depth && n == probe_nodes && a == probe_actions,
            r.spec_id() == id@,
    {
        Agent::SearchProbe { id: id.to_owned(), config, probe_depth, probe_nodes, probe_actions }
    }

    pub fn search_tt_order(id: &str, config: SearchConfig) -> (r: Self)
        ensures
            r matches Agent::SearchTtOrder { config: c, .. } && c == config,
            r.spec_id() == id@,
    {
        Agent::SearchTtOrder { id: id.to_owned(), config }
    }

    pub fn search_tactical_guard(id: &str, config: SearchConfig) -> (r: Self)
        ensures
            r matches Agent::SearchTacticalGuard { config: c, .. } && c == config,
            r.spec_id() == id@,
    {
        Agent::SearchTacticalGuard { id: id.to_owned(), config }
    }

    pub fn search_tactical_filter(id: &str, config: SearchConfig) -> (r: Self)
        ensures
            r matches Agent::SearchTacticalFilter { config: c, deadline_ms: d, .. } && c == config
                && d is None,
            r.spec_id() == id@,
    {
        Agent::SearchTacticalFilter { id: id.to_owned(), config, deadline_ms: None }
    }

    pub fn search_tactical_filter_with_deadline(id: &str, config: SearchConfig, deadline_ms: u32) -> (r: Self)
        requires
            deadline_ms > 0,
        ensures
            r matches Agent::SearchTacticalFilter { config: c, deadline_ms: d, .. } && c == config
                && d == Some(deadline_ms),
            r.spec_id() == id@,
    {
        Agent::SearchTacticalFilter { id: id.to_owned(), config, deadline_ms: Some(deadline_ms) }
    }

    pub fn contextual(id: &str, configs: [SearchConfig; 4]) -> (r: Self)
        ensures
            r matches Agent::Contextual { configs: c, deadline_ms: d, .. } && c == configs && d is None,
            r.spec_id() == id@,
    {
        Agent::Contextual { id: id.to_owned(), configs, deadline_ms: None }
    }

    pub fn contextual_with_deadline(id: &str, configs: [SearchConfig; 4], deadline_ms: u32) -> (r: Self)
        requires
            deadline_ms > 0,
        ensures
            r matches Agent::Contextual { configs: c, deadline_ms: d, .. } && c == configs && d == Some(
                deadline_ms,
            ),
            r.spec_id() == id@,
    {
        Agent::Contextual { id: id.to_owned(), configs, deadline_ms: Some(deadline_ms) }
    }

    pub fn contextual_by_player_with_deadline(
        id: &str,
        light_configs: [SearchConfig; 4],
        dark_configs: [SearchConfig; 4],
        deadline_ms: u32,
    ) -> (r: Self)
        requires
            deadline_ms > 0,
        ensures
            r matches Agent::ContextualByPlayer { light_configs: l, dark_configs: k, deadline_ms: d, .. }
                && l == light_configs && k == dark_configs && d == Some(deadline_ms),
            r.spec_id() == id@,
    {
        Agent::ContextualByPlayer { id: id.to_owned(), light_configs, dark_configs, deadline_ms: Some(deadline_ms) }
    }

    pub fn id(&self) -> (r: &str)
        ensures
            r@ == self.spec_id(),
    {
        match self {
            Agent::Random { id } => id.as_str(),
            Agent::Lunatic { id } => id.as_str(),
            Agent::Search { id, .. } => id.as_str(),
            Agent::SearchProbe { id, .. } => id.as_str(),
            Agent::SearchTtOrder { id, .. } => id.as_str(),
            Agent::SearchTacticalGuard { id, .. } => id.as_str(),
            Agent::SearchTacticalFilter { id, .. } => id.as_str(),
            Agent::Contextual { id, .. } => id.as_str(),
            Agent::ContextualByPlayer { id, .. } => id.as_str(),
        }
    }
}


/// What a game record states about one of its agents: its identity, the
/// figures of its search manifest, and the parameters particular to its
/// kind.
#[derive(Clone, Debug, PartialEq)]
pub struct AgentDescription {
    pub id: String,
    pub name: &'static str,
    pub kind: &'static str,
    pub depth: u32,
    pub node_budget: u64,
    pub beam: u32,
    pub weights: EvaluationWeights,
    pub tactical_proof_horizon: Option<u8>,
    pub deadline_ms: Option<u32>,
    /// Depth, node budget and action count of a root scout.
    pub root_probe: Option<(u8, u64, usize)>,
    /// Weights by phase: opening, placement, movement, late game.
    pub contextual_weights: Option<[EvaluationWeights; 4]>,
    /// Phase weights for Light, then for Dark.
    pub contextual_weights_by_player: Option<([EvaluationWeights; 4], [EvaluationWeights; 4])>,
}

/// The weights of the four phase configurations.
pub open spec fn phase_weights(configs: [SearchConfig; 4]) -> [EvaluationWeights; 4] {
    [configs@[0].weights, configs@[1].weights, configs@[2].weights, configs@[3].weights]
}

fn weights_of(configs: &[SearchConfig; 4]) -> (r: [EvaluationWeights; 4])
    ensures
        r == phase_weights(*configs),
{
    [configs[0].weights, configs[1].weights, configs[2].weights, configs[3].weights]
}

/// Whether `spec` is what a record states about `agent`: its id, name and
/// kind, the manifest of the configuration it reports (zeros and the default
/// weights for the coin flip, depth one for the baseline), and the
/// parameters of its kind.
pub open spec fn describes(agent: Agent, spec: AgentDescription) -> bool {
    &&& spec.id@ == agent.spec_id()
    &&& spec.name@ == agent.spec_name()
    &&& spec.kind@ == agent.spec_kind()
    &&& agent is Random ==> spec.depth == 0 && spec.node_budget == 0 && spec.beam == 0
        && spec.weights == reported_default_weights() && spec.tactical_proof_horizon is None
    &&& agent is Lunatic ==> spec.depth == 1 && spec.node_budget == 0 && spec.beam == 0
        && spec.weights == reported_default_weights() && spec.tactical_proof_horizon is None
    &&& !(agent is Random) && !(agent is Lunatic) ==> {
        let c = agent.reported_config();
        &&& spec.depth == c.depth as u32
        &&& spec.node_budget == c.max_nodes
        &&& spec.beam == c.beam_width as u32
        &&& spec.weights == c.weights
        &&& spec.tactical_proof_horizon == c.tactical_proof_horizon
    }
    &&& spec.deadline_ms == agent.spec_deadline()
    &&& spec.root_probe == (match agent {
        Agent::SearchProbe { probe_depth, probe_nodes, probe_actions, .. } => Some(
            (probe_depth, probe_nodes, probe_actions),
        ),
        _ => None,
    })
    &&& spec.contextual_weights == (match agent {
        Agent::Contextual { configs, .. } => Some(phase_weights(configs)),
        _ => None,
    })
    &&& spec.contextual_weights_by_player == (match agent {
        Agent::ContextualByPlayer { light_configs, dark_configs, .. } => Some(
            (phase_weights(light_configs), phase_weights(dark_configs)),
        ),
        _ => None,
    })
}

impl Agent {
    /// Everything a game record states about this agent.
    pub fn specification(&self) -> (r: AgentDescription)
        ensures
            describes(*self, r),
    {
        let id = self.id().to_owned();
        let defaults = EvaluationWeights::default();
        match self {
            Agent::Random { .. } => AgentDescription {
                id,
                name: "Coin Flip",
                kind: "random",
                depth: 0,
                node_budget: 0,
                beam: 0,
                weights: defaults,
                tactical_proof_horizon: None,
                deadline_ms: None,
                root_probe: None,
                contextual_weights: None,
                contextual_weights_by_player: None,
            },
            Agent::Lunatic { .. } => AgentDescription {
                id,
                name: "Lunatic",
                kind: "heuristic",
                depth: 1,
                node_budget: 0,
                beam: 0,
                weights: defaults,
                tactical_proof_horizon: None,
                deadline_ms: None,
                root_probe: None,
                contextual_weights: None,
                contextual_weights_by_player: None,
            },
            Agent::Search { config, deadline_ms, .. } => searched_specification(
                id,
                "Rust Search",
                config,
                *deadline_ms,
            ),
            Agent::SearchProbe { config, probe_depth, probe_nodes, probe_actions, .. } => {
                let mut spec = searched_specification(id, "Rust Pathfinder · root probe", config, None);
                spec.root_probe = Some((*probe_depth, *probe_nodes, *probe_actions));
                spec
            },
            Agent::SearchTtOrder { config, .. } => searched_specification(
                id,
                "Rust Pathfinder · TT ordering",
                config,
                None,
            ),
            Agent::SearchTacticalGuard { config, .. } => searched_specification(
                id,
                "Rust Pathfinder · tactical root guard",
                config,
                None,
            ),
            Agent::SearchTacticalFilter { config, deadline_ms, .. } => searched_specification(
                id,
                "Rust Pathfinder · tactical root filter",
                config,
                *deadline_ms,
            ),
            Agent::Contextual { configs, deadline_ms, .. } => {
                let mut spec = searched_specification(
                    id,
                    "Rust Pathfinder · contextual evaluator",
                    &configs[0],
                    *deadline_ms,
                );
                spec.contextual_weights = Some(weights_of(configs));
                spec
            },
            Agent::ContextualByPlayer { light_configs, dark_configs, deadline_ms, .. } => {
                let mut spec = searched_specification(
                    id,
                    "Rust Pathfinder · contextual evaluator by player",
                    &light_configs[0],
                    *deadline_ms,
                );
                spec.contextual_weights_by_player = Some(
                    (weights_of(light_configs), weights_of(dark_configs)),
                );
                spec
            },
        }
    }
}

/// The specification of a searching agent with `config` as its manifest.
fn searched_specification(
    id: String,
    name: &'static str,
    config: &SearchConfig,
    deadline_ms: Option<u32>,
) -> (r: AgentDescription)
    ensures
        r.id == id,
        r.name == name,
        r.kind@ == "search"@,
        r.depth == config.depth as u32,
        r.node_budget == config.max_nodes,
        r.beam == config.beam_width as u32,
        r.weights == config.weights,
        r.tactical_proof_horizon == config.tactical_proof_horizon,
        r.deadline_ms == deadline_ms,
        r.root_probe is None,
        r.contextual_weights is None,
        r.contextual_weights_by_player is None,
{
    AgentDescription {
        id,
        name,
        kind: "search",
        depth: config.depth as u32,
        node_budget: config.max_nodes,
        beam: config.beam_width as u32,
        weights: config.weights,
        tactical_proof_horizon: config.tactical_proof_horizon,
        deadline_ms,
        root_probe: None,
        contextual_weights: None,
        contextual_weights_by_player: None,
    }
}


// ---------------------------------------------------------------------------
// Choosing moves
// ---------------------------------------------------------------------------

/// One move of a recorded game: the ply reached, the mover, the action, the
/// squares it captured, and what the chooser reported.
#[derive(Clone, Copy, Debug, PartialEq, Eq, Structural)]
pub struct MoveRecord {
    pub ply: u16,
    pub player: Player,
    pub action: Action,
    pub captured: u64,
    pub score: i32,
    pub nodes: u64,
    pub completed_depth: u8,
    pub table_hits: u64,
    pub book_hit: bool,
}

/// What a coin-flip choice reports: no score and one node.
pub open spec fn coin_flip(record: MoveRecord) -> bool {
    &&& record.score == 0
    &&& record.nodes == 1
    &&& record.completed_depth == 0
    &&& record.table_hits == 0
    &&& !record.book_hit
}

/// What a search under `config` reports: the node budget kept, at most two
/// table hits a node, no deeper pass than configured, and a score strictly
/// inside the search bounds.
pub open spec fn searched(config: SearchConfig, record: MoveRecord) -> bool {
    &&& record.nodes <= config.max_nodes
    &&& record.table_hits <= 2 * record.nodes
    &&& record.completed_depth <= config.depth
    &&& NEG_INF < record.score < POS_INF
    &&& !record.book_hit
}

/// Whether `record` is a choice that `agent` can make in `state`: the
/// baseline takes a win whenever one is on the board and scores every legal
/// action once, each search keeps the bounds of its configuration, and a
/// plain search that stopped short of its node budget plays a best move of
/// the beam-limited minimax at its configured depth, as does a search with
/// table ordering whose beam drops no move.
pub open spec fn chosen(agent: Agent, state: GameState, record: MoveRecord) -> bool {
    match agent {
        Agent::Random { .. } => coin_flip(record),
        Agent::Lunatic { .. } => {
            &&& (exists|a: Action| #[trigger] state.spec_legal_actions().contains(a) && wins_at_once(state, a))
                ==> wins_at_once(state, record.action)
            &&& record.score == lunatic_score(state, record.action)
            &&& forall|a: Action| #[trigger] state.spec_legal_actions().contains(a) ==> lunatic_prefers(
                state,
                record.action,
                a,
            )
            &&& record.nodes == state.spec_legal_actions().len()
            &&& record.completed_depth == 1
            &&& record.table_hits == 0
            &&& !record.book_hit
        },
        Agent::Search { config, deadline_ms, .. } => {
            &&& searched(config, record)
            &&& deadline_ms is None && config.depth > 0 && record.nodes < config.max_nodes ==> root_best(
                state,
                config,
                false,
                config.depth as nat,
                record.action,
                record.score as int,
            )
        },
        Agent::SearchTtOrder { config, .. } => {
            &&& searched(config, record)
            &&& config.depth > 0 && record.nodes < config.max_nodes && beam_covers(state, config.depth as nat, config)
                ==> root_best(state, config, false, config.depth as nat, record.action, record.score as int)
        },
        Agent::SearchTacticalGuard { config, .. } => {
            &&& searched(config, record)
            &&& config.depth > 0 && record.nodes < config.max_nodes && beam_covers(state, config.depth as nat, config)
                ==> root_best(state, config, false, config.depth as nat, record.action, record.score as int)
        },
        Agent::SearchProbe { config, .. } => {
            &&& record.nodes <= config.max_nodes
            &&& NEG_INF <= record.score <= POS_INF
            &&& !record.book_hit
        },
        _ => searched(agent.config_for(state), record),
    }
}

struct Decision {
    action: Option<Action>,
    score: i32,
    nodes: u64,
    completed_depth: u8,
    table_hits: u64,
    book_hit: bool,
}

impl Decision {
    spec fn recorded(self, state: GameState, action: Action) -> MoveRecord {
        MoveRecord {
            ply: state.spec_apply(action).state.ply,
            player: state.turn,
            action,
            captured: state.spec_apply(action).captured,
            score: self.score,
            nodes: self.nodes,
            completed_depth: self.completed_depth,
            table_hits: self.table_hits,
            book_hit: self.book_hit,
        }
    }

    spec fn legal_in(self, state: GameState) -> bool {
        &&& (self.action is None) == (state.spec_legal_actions().len() == 0)
        &&& self.action matches Some(a) ==> state.spec_legal_actions().contains(a)
    }
}

fn searched_decision(result: SearchResult) -> (r: Decision)
    ensures
        r.action == result.action,
        r.score == result.score,
        r.nodes == result.nodes,
        r.completed_depth == result.completed_depth,
        r.table_hits == result.table_hits,
        !r.book_hit,
{
    Decision {
        action: result.action,
        score: result.score,
        nodes: result.nodes,
        completed_depth: result.completed_depth,
        table_hits: result.table_hits,
        book_hit: false,
    }
}

/// A legal action drawn from the generator, reported as a coin flip.
fn coin_flip_decision(state: GameState, random: &mut Mulberry32) -> (r: Decision)
    requires
        state.wf(),
    ensures
        r.legal_in(state),
        r.action matches Some(a) ==> coin_flip(r.recorded(state, a)),
        state.spec_legal_actions().len() > 0 ==> final(random).spec_state() == mulberry_advance(
            old(random).spec_state(),
        ) && r.action == Some(coin_flip_pick(state, old(random).spec_state())),
        state.spec_legal_actions().len() == 0 ==> final(random).spec_state() == old(
            random,
        ).spec_state(),
{
    let actions = state.legal_actions();
    proof {
        lemma_legal_action_bound(state);
    }
    let action = random.choose_value(actions.as_slice());
    proof {
        if actions@.len() > 0 {
            assert(state.spec_legal_actions().contains(action.unwrap()));
        }
    }
    Decision {
        action,
        score: 0,
        nodes: if actions.len() == 0 { 0 } else { 1 },
        completed_depth: 0,
        table_hits: 0,
        book_hit: false,
    }
}

impl Agent {
    fn decide(&self, state: GameState, random: &mut Mulberry32) -> (r: Decision)
        requires
            self.fits(),
            state.inventory_kept(),
            state.ply < 4096,
        ensures
            r.legal_in(state),
            r.action matches Some(a) ==> chosen(*self, state, r.recorded(state, a)),
            *self is Random && state.spec_legal_actions().len() > 0 ==> final(random).spec_state()
                == mulberry_advance(old(random).spec_state()) && r.action == Some(
                coin_flip_pick(state, old(random).spec_state()),
            ),
            !(*self is Random) ==> final(random).spec_state() == old(random).spec_state(),
    {
        match self {
            Agent::Random { .. } => coin_flip_decision(state, random),
            Agent::Lunatic { .. } => {
                let result = lunatic_action(state);
                let decision = searched_decision(result);
                proof {
                    if let Some(a) = result.action {
                        if exists|b: Action| #[trigger] state.spec_legal_actions().contains(b)
                            && wins_at_once(state, b) {
                            assert(wins_at_once(state, a));
                        }
                    }
                }
                decision
            },
            Agent::Search { config, deadline_ms, .. } => {
                let result = match deadline_ms {
                    None => search_best_action(state, *config),
                    Some(ms) => search_best_action_with_deadline(state, *config, *ms),
                };
                searched_decision(result)
            },
            Agent::SearchProbe { config, probe_depth, probe_nodes, probe_actions, .. } => {
                let result = search_best_action_with_root_probe(
                    state,
                    *config,
                    *probe_depth,
                    *probe_nodes,
                    *probe_actions,
                );
                searched_decision(result)
            },
            Agent::SearchTtOrder { config, .. } => {
                searched_decision(search_best_action_with_tt_order(state, *config))
            },
            Agent::SearchTacticalGuard { config, .. } => {
                searched_decision(search_best_action_with_tactical_guard(state, *config))
            },
            Agent::SearchTacticalFilter { config, deadline_ms, .. } => {
                let result = match deadline_ms {
                    None => search_best_action_with_tactical_filter(state, *config),
                    Some(ms) => search_best_action_with_tactical_filter_deadline(state, *config, *ms),
                };
                searched_decision(result)
            },
            Agent::Contextual { configs, deadline_ms, .. } => {
                let phase = contextual_phase_index(state);
                let config = configs[phase];
                proof {
                    assert(configs@[phase as int].fits());
                }
                let result = match deadline_ms {
                    None => search_best_action_with_tactical_filter(state, config),
                    Some(ms) => search_best_action_with_tactical_filter_deadline(state, config, *ms),
                };
                searched_decision(result)
            },
            Agent::ContextualByPlayer { light_configs, dark_configs, deadline_ms, .. } => {
                let phase = contextual_phase_index(state);
                let config = match state.turn {
                    Player::Light => light_configs[phase],
                    Player::Dark => dark_configs[phase],
                };
                proof {
                    assert(light_configs@[phase as int].fits());
                    assert(dark_configs@[phase as int].fits());
                }
                let result = match deadline_ms {
                    None => search_best_action_with_tactical_filter(state, config),
                    Some(ms) => search_best_action_with_tactical_filter_deadline(state, config, *ms),
                };
                searched_decision(result)
            },
        }
    }
}


// ---------------------------------------------------------------------------
// Playing a match
// ---------------------------------------------------------------------------

/// A finished game: the match it was played under, both agents, how it
/// ended, and every move.
#[derive(Clone, Debug, PartialEq)]
pub struct GameRecord {
    pub seed: u32,
    pub max_plies: u16,
    pub board_size: u8,
    pub reserve_per_player: u8,
    pub light_agent: String,
    pub dark_agent: String,
    pub light_specification: AgentDescription,
    pub dark_specification: AgentDescription,
    pub winner: Option<Player>,
    pub reason: TerminationReason,
    pub moves: Vec<MoveRecord>,
}

/// The board configuration a match is played under.
pub open spec fn match_config(options: MatchOptions) -> BoardConfig {
    BoardConfig {
        board_size: options.board_size,
        reserve_per_player: options.reserve_per_player,
        max_plies: options.max_plies,
    }
}

/// The position after the first `n` recorded moves.
#[verifier::opaque]
pub open spec fn replayed(start: GameState, moves: Seq<MoveRecord>, n: nat) -> GameState
    decreases n,
{
    if n == 0 {
        start
    } else {
        replayed(start, moves, (n - 1) as nat).spec_apply(moves[n - 1].action).state
    }
}

/// Whether `record` is a move played from `state`: a legal action of the
/// mover, with the captures and the ply that it produced.
#[verifier::opaque]
pub open spec fn move_played(state: GameState, record: MoveRecord) -> bool {
    &&& state.spec_legal_actions().contains(record.action)
    &&& record.player == state.turn
    &&& record.captured == state.spec_apply(record.action).captured
    &&& record.ply == state.spec_apply(record.action).state.ply
}

/// Whether the right chooser made `record` in `state`: the match generator
/// during the opening plies, then the agent of the side to move.
pub open spec fn move_chosen(
    light: Agent,
    dark: Agent,
    options: MatchOptions,
    state: GameState,
    record: MoveRecord,
) -> bool {
    if state.ply < options.opening_random_plies {
        coin_flip(record)
    } else if state.turn == Player::Light {
        chosen(light, state, record)
    } else {
        chosen(dark, state, record)
    }
}

/// How many entries of `keys` equal `key`.
pub open spec fn occurrences(keys: Seq<RepetitionKey>, key: RepetitionKey) -> nat
    decreases keys.len(),
{
    if keys.len() == 0 {
        0
    } else {
        occurrences(keys.drop_last(), key) + if keys.last() == key {
            1nat
        } else {
            0nat
        }
    }
}

/// The repetition keys of the first `n` positions of a game.
pub open spec fn visited_keys(start: GameState, moves: Seq<MoveRecord>, n: nat) -> Seq<RepetitionKey> {
    Seq::new(n, |i: int| RepetitionKey::of(replayed(start, moves, i as nat)))
}

/// Every recorded move replays legally from the position before it.
#[verifier::opaque]
pub open spec fn moves_replay(start: GameState, moves: Seq<MoveRecord>) -> bool {
    forall|i: int| 0 <= i < moves.len() ==> move_played(#[trigger] replayed(start, moves, i as nat), moves[i])
}

/// Every recorded move was made by the right chooser.
#[verifier::opaque]
pub open spec fn moves_chosen(
    light: Agent,
    dark: Agent,
    options: MatchOptions,
    start: GameState,
    moves: Seq<MoveRecord>,
) -> bool {
    forall|i: int| 0 <= i < moves.len() ==> move_chosen(light, dark, options, #[trigger] replayed(start, moves, i as nat), moves[i])
}

/// Whether the match generator chooses the move from `state`: during the
/// opening plies, and for a side played by the coin-flip agent.
pub open spec fn generator_moves(light: Agent, dark: Agent, options: MatchOptions, state: GameState) -> bool {
    ||| state.ply < options.opening_random_plies
    ||| (state.turn == Player::Light && light is Random)
    ||| (state.turn == Player::Dark && dark is Random)
}

/// The legal action that a coin flip draws in `state` when the generator
/// stands at `generator`: it advances once and its output scales to an index.
pub open spec fn coin_flip_pick(state: GameState, generator: u32) -> Action {
    let legal = state.spec_legal_actions();
    legal[scaled_index(mulberry_output(mulberry_advance(generator)), legal.len()) as int]
}

/// The generator state before the `n`-th move: the seed, advanced once for
/// each earlier move that the generator chose.
pub open spec fn generator_before(
    light: Agent,
    dark: Agent,
    options: MatchOptions,
    start: GameState,
    moves: Seq<MoveRecord>,
    n: nat,
) -> u32
    decreases n,
{
    if n == 0 {
        options.seed
    } else {
        let before = generator_before(light, dark, options, start, moves, (n - 1) as nat);
        if generator_moves(light, dark, options, replayed(start, moves, (n - 1) as nat)) {
            mulberry_advance(before)
        } else {
            before
        }
    }
}

/// Every move that the generator chose is the action that the seeded
/// generator draws at that point of the game.
#[verifier::opaque]
pub open spec fn moves_seeded(
    light: Agent,
    dark: Agent,
    options: MatchOptions,
    start: GameState,
    moves: Seq<MoveRecord>,
) -> bool {
    forall|i: int|
        0 <= i < moves.len() && generator_moves(
            light,
            dark,
            options,
            #[trigger] replayed(start, moves, i as nat),
        ) ==> moves[i].action == coin_flip_pick(
            replayed(start, moves, i as nat),
            generator_before(light, dark, options, start, moves, i as nat),
        )
}

/// No move was made from a position on its third visit.
#[verifier::opaque]
pub open spec fn no_third_visit(start: GameState, moves: Seq<MoveRecord>) -> bool {
    forall|i: int| 0 <= i < moves.len() ==> occurrences(
        #[trigger] visited_keys(start, moves, (i + 1) as nat),
        RepetitionKey::of(replayed(start, moves, i as nat)),
    ) < 3
}

/// The first `m` keys were each seen at most twice when they were visited.
#[verifier::opaque]
spec fn visits_below_three(keys: Seq<RepetitionKey>, m: int) -> bool {
    forall|i: int| 0 <= i < m ==> occurrences(#[trigger] keys.take(i + 1), keys[i]) < 3
}

/// What a record of a game between `light` and `dark` under `options`
/// states: the match and both agents; moves that replay legally from the
/// opening position, each made by the right chooser and none from a
/// position seen for the third time; and an ending that the final position
/// bears out: a winner exactly for a path, the ply limit reached, no legal
/// action left, or the final position seen for the third time.
pub open spec fn game_ok(light: Agent, dark: Agent, options: MatchOptions, record: GameRecord) -> bool {
    let start = GameState::initial(match_config(options));
    let moves = record.moves@;
    let n = moves.len();
    let last = replayed(start, moves, n);
    &&& record.seed == options.seed
    &&& record.max_plies == options.max_plies
    &&& record.board_size == options.board_size
    &&& record.reserve_per_player == options.reserve_per_player
    &&& record.light_agent@ == light.spec_id()
    &&& record.dark_agent@ == dark.spec_id()
    &&& describes(light, record.light_specification)
    &&& describes(dark, record.dark_specification)
    &&& moves_replay(start, moves)
    &&& moves_chosen(light, dark, options, start, moves)
    &&& moves_seeded(light, dark, options, start, moves)
    &&& no_third_visit(start, moves)
    &&& last.ply == n
    &&& n <= options.max_plies
    &&& record.winner == last.winner
    &&& (record.reason == TerminationReason::Path) == (last.winner is Some)
    &&& record.reason == TerminationReason::MaxPlies ==> n == options.max_plies
    &&& record.reason == TerminationReason::NoLegalAction ==> last.spec_legal_actions().len() == 0
    &&& record.reason == TerminationReason::ThreefoldRepetition ==> occurrences(
        visited_keys(start, moves, n + 1),
        RepetitionKey::of(last),
    ) == 3
}

proof fn lemma_replayed_push(start: GameState, moves: Seq<MoveRecord>, m: MoveRecord, i: nat)
    requires
        i <= moves.len(),
    ensures
        replayed(start, moves.push(m), i) == replayed(start, moves, i),
    decreases i,
{
    reveal(replayed);
    if i > 0 {
        lemma_replayed_push(start, moves, m, (i - 1) as nat);
    }
}

/// The position after one more move is that move played from the position
/// before it.
proof fn lemma_replayed_next(start: GameState, moves: Seq<MoveRecord>, n: nat)
    requires
        n < moves.len(),
    ensures
        replayed(start, moves, n + 1) == replayed(start, moves, n).spec_apply(moves[n as int].action).state,
{
    reveal(replayed);
}

proof fn lemma_occurrences_take(keys: Seq<RepetitionKey>, key: RepetitionKey, i: int)
    requires
        0 <= i < keys.len(),
    ensures
        occurrences(keys.take(i + 1), key) == occurrences(keys.take(i), key) + if keys[i] == key {
            1nat
        } else {
            0nat
        },
{
    assert(keys.take(i + 1).drop_last() =~= keys.take(i));
}

/// When no key was seen a third time at any of its visits, no key occurs
/// more than twice.
proof fn lemma_occurrences_bounded(keys: Seq<RepetitionKey>, key: RepetitionKey)
    requires
        visits_below_three(keys, keys.len() as int),
    ensures
        occurrences(keys, key) <= 2,
    decreases keys.len(),
{
    reveal(visits_below_three);
    if keys.len() > 0 {
        let shorter = keys.drop_last();
        assert forall|i: int| 0 <= i < shorter.len() implies occurrences(#[trigger] shorter.take(i + 1), shorter[i]) < 3 by {
            assert(shorter.take(i + 1) =~= keys.take(i + 1));
        }
        lemma_occurrences_bounded(shorter, key);
        assert(keys.take(keys.len() - 1 + 1) =~= keys);
    }
}

/// How many entries of `keys` equal `key`.
fn count_key(keys: &Vec<RepetitionKey>, key: RepetitionKey) -> (r: usize)
    ensures
        r == occurrences(keys@, key),
{
    let mut count: usize = 0;
    let mut i: usize = 0;
    while i < keys.len()
        invariant
            i <= keys@.len(),
            count == occurrences(keys@.take(i as int), key),
            count <= i,
        decreases keys@.len() - i,
    {
        proof {
            lemma_occurrences_take(keys@, key, i as int);
        }
        if keys[i] == key {
            count = count + 1;
        }
        i = i + 1;
    }
    proof {
        assert(keys@.take(keys@.len() as int) =~= keys@);
    }
    count
}

fn record(
    light: &Agent,
    dark: &Agent,
    options: MatchOptions,
    winner: Option<Player>,
    reason: TerminationReason,
    moves: Vec<MoveRecord>,
) -> (r: GameRecord)
    ensures
        r.seed == options.seed,
        r.max_plies == options.max_plies,
        r.board_size == options.board_size,
        r.reserve_per_player == options.reserve_per_player,
        r.light_agent@ == light.spec_id(),
        r.dark_agent@ == dark.spec_id(),
        describes(*light, r.light_specification),
        describes(*dark, r.dark_specification),
        r.winner == winner,
        r.reason == reason,
        r.moves@ == moves@,
{
    GameRecord {
        seed: options.seed,
        max_plies: options.max_plies,
        board_size: options.board_size,
        reserve_per_player: options.reserve_per_player,
        light_agent: light.id().to_owned(),
        dark_agent: dark.id().to_owned(),
        light_specification: light.specification(),
        dark_specification: dark.specification(),
        winner,
        reason,
        moves,
    }
}

/// Visiting the current position: the kept keys grow by its key, earlier
/// visits keep their counts, and the new count is at most three.
proof fn lemma_visit(start: GameState, moves: Seq<MoveRecord>, before: Seq<RepetitionKey>, key: RepetitionKey)
    requires
        before.len() == moves.len(),
        before == visited_keys(start, moves, moves.len()),
        visits_below_three(before, before.len() as int),
        key == RepetitionKey::of(replayed(start, moves, moves.len())),
    ensures
        before.push(key) == visited_keys(start, moves, moves.len() + 1),
        visits_below_three(before.push(key), before.len() as int),
        occurrences(before.push(key), key) <= 3,
        occurrences(before.push(key), key) < 3 ==> visits_below_three(before.push(key), before.len() as int + 1),
{
    reveal(visits_below_three);
    let keys = before.push(key);
    assert(keys =~= visited_keys(start, moves, moves.len() + 1));
    assert forall|i: int| 0 <= i < before.len() implies occurrences(#[trigger] keys.take(i + 1), keys[i]) < 3 by {
        assert(keys.take(i + 1) =~= before.take(i + 1));
    }
    lemma_occurrences_bounded(before, key);
    assert(keys.drop_last() =~= before);
    assert(keys.take(before.len() as int + 1) =~= keys);
}

/// The kept keys restate what the record says of each position's visits.
proof fn lemma_keys_visited(start: GameState, moves: Seq<MoveRecord>, keys: Seq<RepetitionKey>)
    requires
        moves.len() <= keys.len(),
        keys == visited_keys(start, moves, keys.len()),
        visits_below_three(keys, moves.len() as int),
    ensures
        no_third_visit(start, moves),
{
    reveal(visits_below_three);
    reveal(no_third_visit);
    assert forall|i: int| 0 <= i < moves.len() implies occurrences(#[trigger] visited_keys(start, moves, (i + 1) as nat), RepetitionKey::of(replayed(start, moves, i as nat))) < 3 by {
        assert(visited_keys(start, moves, (i + 1) as nat) =~= keys.take(i + 1));
        assert(keys.take(i + 1)[i] == keys[i]);
    }
}

/// A move appended to the record keeps the earlier positions.
proof fn lemma_push_keeps_prefix(start: GameState, moves: Seq<MoveRecord>, entry: MoveRecord)
    ensures
        forall|i: int| 0 <= i <= moves.len() ==> #[trigger] replayed(start, moves.push(entry), i as nat)
            == replayed(start, moves, i as nat),
{
    assert forall|i: int| 0 <= i <= moves.len() implies #[trigger] replayed(start, moves.push(entry), i as nat)
        == replayed(start, moves, i as nat) by {
        lemma_replayed_push(start, moves, entry, i as nat);
    }
}

/// A legally played move appended to the record keeps it a legal replay.
proof fn lemma_step_replay(start: GameState, moves: Seq<MoveRecord>, entry: MoveRecord, keys: Seq<RepetitionKey>)
    requires
        keys.len() == moves.len() + 1,
        keys == visited_keys(start, moves, keys.len()),
        moves_replay(start, moves),
        move_played(replayed(start, moves, moves.len()), entry),
    ensures
        keys == visited_keys(start, moves.push(entry), keys.len()),
        moves_replay(start, moves.push(entry)),
        replayed(start, moves.push(entry), (moves.len() + 1) as nat) == replayed(start, moves, moves.len() as nat).spec_apply(entry.action).state,
{
    reveal(moves_replay);
    let pushed = moves.push(entry);
    lemma_push_keeps_prefix(start, moves, entry);
    lemma_replayed_next(start, pushed, moves.len());
    lemma_replayed_push(start, moves, entry, moves.len());
    assert(pushed[moves.len() as int] == entry);
    assert(keys =~= visited_keys(start, pushed, keys.len()));
    assert forall|i: int| 0 <= i < pushed.len() implies move_played(#[trigger] replayed(start, pushed, i as nat), pushed[i]) by {
        assert(replayed(start, pushed, i as nat) == replayed(start, moves, i as nat));
    }
}

/// A move made by the right chooser appended to the record keeps every
/// move made by the right chooser.
proof fn lemma_step_chosen(
    light: Agent,
    dark: Agent,
    options: MatchOptions,
    start: GameState,
    moves: Seq<MoveRecord>,
    entry: MoveRecord,
)
    requires
        moves_chosen(light, dark, options, start, moves),
        move_chosen(light, dark, options, replayed(start, moves, moves.len()), entry),
    ensures
        moves_chosen(light, dark, options, start, moves.push(entry)),
{
    reveal(moves_chosen);
    let pushed = moves.push(entry);
    lemma_push_keeps_prefix(start, moves, entry);
    assert forall|i: int| 0 <= i < pushed.len() implies move_chosen(light, dark, options, #[trigger] replayed(start, pushed, i as nat), pushed[i]) by {
        assert(replayed(start, pushed, i as nat) == replayed(start, moves, i as nat));
        assert(pushed[i] == if i < moves.len() { moves[i] } else { entry });
    }
}

proof fn lemma_generator_push(
    light: Agent,
    dark: Agent,
    options: MatchOptions,
    start: GameState,
    moves: Seq<MoveRecord>,
    entry: MoveRecord,
    n: nat,
)
    requires
        n <= moves.len(),
    ensures
        generator_before(light, dark, options, start, moves.push(entry), n) == generator_before(
            light,
            dark,
            options,
            start,
            moves,
            n,
        ),
    decreases n,
{
    if n > 0 {
        lemma_generator_push(light, dark, options, start, moves, entry, (n - 1) as nat);
        lemma_replayed_push(start, moves, entry, (n - 1) as nat);
    }
}

/// A move appended with the generator's draw keeps the record seeded.
proof fn lemma_step_seeded(
    light: Agent,
    dark: Agent,
    options: MatchOptions,
    start: GameState,
    moves: Seq<MoveRecord>,
    entry: MoveRecord,
)
    requires
        moves_seeded(light, dark, options, start, moves),
        generator_moves(light, dark, options, replayed(start, moves, moves.len())) ==> entry.action
            == coin_flip_pick(
            replayed(start, moves, moves.len()),
            generator_before(light, dark, options, start, moves, moves.len()),
        ),
    ensures
        moves_seeded(light, dark, options, start, moves.push(entry)),
        generator_before(light, dark, options, start, moves.push(entry), moves.len() + 1) == if generator_moves(
            light,
            dark,
            options,
            replayed(start, moves, moves.len()),
        ) {
            mulberry_advance(generator_before(light, dark, options, start, moves, moves.len()))
        } else {
            generator_before(light, dark, options, start, moves, moves.len())
        },
{
    reveal(moves_seeded);
    let pushed = moves.push(entry);
    lemma_push_keeps_prefix(start, moves, entry);
    assert forall|i: int|
        0 <= i < pushed.len() && generator_moves(
            light,
            dark,
            options,
            #[trigger] replayed(start, pushed, i as nat),
        ) implies pushed[i].action == coin_flip_pick(
        replayed(start, pushed, i as nat),
        generator_before(light, dark, options, start, pushed, i as nat),
    ) by {
        assert(replayed(start, pushed, i as nat) == replayed(start, moves, i as nat));
        lemma_generator_push(light, dark, options, start, moves, entry, i as nat);
        assert(pushed[i] == if i < moves.len() { moves[i] } else { entry });
    }
    lemma_generator_push(light, dark, options, start, moves, entry, moves.len());
}

/// One move of the match loop from a position with a legal action: the
/// generator chooses during the opening plies, the side to move's agent
/// afterwards. `None` only when the position has no legal action.
fn next_move(
    light: &Agent,
    dark: &Agent,
    options: MatchOptions,
    state: GameState,
    random: &mut Mulberry32,
) -> (r: Option<(MoveRecord, GameState)>)
    requires
        light.fits(),
        dark.fits(),
        state.inventory_kept(),
        state.ply < 4096,
    ensures
        r is None <==> state.spec_legal_actions().len() == 0,
        r matches Some((m, next)) ==> {
            &&& move_played(state, m)
            &&& move_chosen(*light, *dark, options, state, m)
            &&& next == state.spec_apply(m.action).state
            &&& next.inventory_kept()
            &&& next.ply == state.ply + 1
            &&& generator_moves(*light, *dark, options, state) ==> final(random).spec_state()
                == mulberry_advance(old(random).spec_state()) && m.action == coin_flip_pick(
                state,
                old(random).spec_state(),
            )
            &&& !generator_moves(*light, *dark, options, state) ==> final(random).spec_state()
                == old(random).spec_state()
        },
{
    let actions = state.legal_actions();
    if actions.len() == 0 {
        return None;
    }
    let player = state.turn;
    let decision = if state.ply < options.opening_random_plies {
        coin_flip_decision(state, random)
    } else {
        match player {
            Player::Light => light.decide(state, random),
            Player::Dark => dark.decide(state, random),
        }
    };
    let action = match decision.action {
        Some(a) => a,
        None => {
            return None;
        },
    };
    if !contains_action(&actions, action) {
        return None;
    }
    proof {
        law_play_keeps_inventory(state, action);
    }
    let transition = state.apply_legal(action);
    let entry = MoveRecord {
        ply: transition.state.ply,
        player,
        action,
        captured: transition.captured,
        score: decision.score,
        nodes: decision.nodes,
        completed_depth: decision.completed_depth,
        table_hits: decision.table_hits,
        book_hit: decision.book_hit,
    };
    proof {
        reveal(move_played);
        assert(entry == decision.recorded(state, action));
    }
    Some((entry, transition.state))
}

/// Plays one game between `light` and `dark`: the match generator chooses
/// the opening plies, then each agent chooses for its colour, until a path
/// wins, the ply limit is reached, the side to move has no legal action, or
/// a position occurs for the third time.
pub fn play_game(light: &Agent, dark: &Agent, options: MatchOptions) -> (r: GameRecord)
    requires
        match_config(options).valid(),
        light.fits(),
        dark.fits(),
    ensures
        game_ok(*light, *dark, options, r),
{
    let mut random = Mulberry32::new(options.seed);
    let config = match BoardConfig::new(options.board_size, options.reserve_per_player) {
        Ok(c) => match c.with_max_plies(options.max_plies) {
            Ok(c) => c,
            Err(_) => {
                proof {
                    assert(false);
                }
                BoardConfig::default()
            },
        },
        Err(_) => {
            proof {
                assert(false);
            }
            BoardConfig::default()
        },
    };
    let mut state = GameState::with_config(config);
    let ghost start = state;
    let mut moves: Vec<MoveRecord> = Vec::new();
    let mut keys: Vec<RepetitionKey> = Vec::new();
    proof {
        crate::rules::lemma_initial_inventory(match_config(options));
        reveal(moves_replay);
        reveal(moves_chosen);
        reveal(moves_seeded);
        reveal(visits_below_three);
        reveal(replayed);
        assert(keys@ =~= visited_keys(start, moves@, 0));
    }
    while state.winner.is_none() && state.ply < options.max_plies
        invariant
            light.fits(),
            dark.fits(),
            start == GameState::initial(match_config(options)),
            state == replayed(start, moves@, moves@.len() as nat),
            state.inventory_kept(),
            state.ply == moves@.len(),
            moves@.len() <= options.max_plies <= 4096,
            keys@ == visited_keys(start, moves@, moves@.len() as nat),
            moves_replay(start, moves@),
            moves_chosen(*light, *dark, options, start, moves@),
            moves_seeded(*light, *dark, options, start, moves@),
            random.spec_state() == generator_before(
                *light,
                *dark,
                options,
                start,
                moves@,
                moves@.len() as nat,
            ),
            visits_below_three(keys@, keys@.len() as int),
        decreases options.max_plies - state.ply,
    {
        let ghost before = keys@;
        let key = RepetitionKey::from_state(state);
        keys.push(key);
        let repetition_count = count_key(&keys, key);
        proof {
            lemma_visit(start, moves@, before, key);
        }
        if repetition_count >= 3 {
            proof {
                lemma_keys_visited(start, moves@, keys@);
            }
            return record(light, dark, options, None, TerminationReason::ThreefoldRepetition, moves);
        }
        let step = next_move(light, dark, options, state, &mut random);
        match step {
            None => {
                proof {
                    lemma_keys_visited(start, moves@, keys@);
                }
                return record(light, dark, options, None, TerminationReason::NoLegalAction, moves);
            },
            Some((entry, next)) => {
                let ghost old_moves = moves@;
                state = next;
                moves.push(entry);
                proof {
                    lemma_step_replay(start, old_moves, entry, keys@);
                    lemma_step_chosen(*light, *dark, options, start, old_moves, entry);
                    lemma_step_seeded(*light, *dark, options, start, old_moves, entry);
                }
            },
        }
    }
    proof {
        lemma_keys_visited(start, moves@, keys@);
    }
    match state.winner {
        Some(winner) => record(light, dark, options, Some(winner), TerminationReason::Path, moves),
        None => record(light, dark, options, None, TerminationReason::MaxPlies, moves),
    }
}

} // verus!
