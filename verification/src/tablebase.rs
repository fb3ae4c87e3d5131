//! Retrograde propagation over exact endgame graphs.
//!
//! A generator supplies canonical position keys and every legal child edge;
//! this module propagates win/draw/loss values backwards from terminals and
//! imported seeds. Missing edges or incomplete enumeration never become
//! draws: a closed unresolved region is a draw only when every node in it is
//! marked complete.

use vstd::prelude::*;
use vstd::string::StringSliceAdditionalSpecFns;
use vstd::utf8::{encode_utf8, encode_utf8_decode_utf8};

use crate::golden::{lemma_lex_less_irreflexive, lemma_lex_less_transitive, lex_less};
use crate::ground_truth::GroundTruthOutcome;

verus! {

// ---------------------------------------------------------------------------
// Data
// ---------------------------------------------------------------------------

#[derive(Clone, Copy, Debug, PartialEq, Eq, Structural)]
pub struct RetrogradeValue {
    pub outcome: GroundTruthOutcome,
    pub distance: Option<u16>,
}

#[derive(Clone, Debug)]
pub struct RetrogradeEdge {
    pub action: String,
    pub child: String,
}

impl View for RetrogradeEdge {
    type V = (Seq<char>, Seq<char>);

    open spec fn view(&self) -> (Seq<char>, Seq<char>) {
        (self.action@, self.child@)
    }
}

#[derive(Clone, Debug)]
pub struct RetrogradeNode {
    pub key: String,
    pub children: Vec<String>,
    /// Set only after the generator has enumerated every legal action.
    pub complete: bool,
    /// Terminal result from this node's side-to-move perspective.
    pub terminal: Option<String>,
    /// Exact value imported from an already solved inner ring: a seed, not a
    /// claim that the position itself is a rule terminal.
    pub seed: Option<RetrogradeValue>,
    /// Optional action labels aligned with the legal child edges.
    pub actions: Vec<RetrogradeEdge>,
}

/// A node as plain values.
pub struct NodeView {
    pub key: Seq<char>,
    pub children: Seq<Seq<char>>,
    pub complete: bool,
    pub terminal: Option<Seq<char>>,
    pub seed: Option<RetrogradeValue>,
    pub actions: Seq<(Seq<char>, Seq<char>)>,
}

impl View for RetrogradeNode {
    type V = NodeView;

    open spec fn view(&self) -> NodeView {
        NodeView {
            key: self.key@,
            children: self.children@.map_values(|child: String| child@),
            complete: self.complete,
            terminal: match self.terminal {
                Some(text) => Some(text@),
                None => None,
            },
            seed: self.seed,
            actions: self.actions@.map_values(|edge: RetrogradeEdge| edge@),
        }
    }
}

#[derive(Clone, Debug)]
pub struct RetrogradeActionValue {
    pub action: String,
    pub outcome: GroundTruthOutcome,
    pub distance: Option<u16>,
}

#[derive(Clone, Copy, Debug, PartialEq, Eq, Structural)]
pub struct RetrogradeStats {
    pub nodes: usize,
    pub edges: usize,
    pub rounds: usize,
    pub solved: usize,
    pub draws: usize,
    pub unknown: usize,
}

impl Default for RetrogradeStats {
    fn default() -> (r: Self)
        ensures
            r == (RetrogradeStats { nodes: 0, edges: 0, rounds: 0, solved: 0, draws: 0, unknown: 0 }),
    {
        RetrogradeStats { nodes: 0, edges: 0, rounds: 0, solved: 0, draws: 0, unknown: 0 }
    }
}

// ---------------------------------------------------------------------------
// Keys
// ---------------------------------------------------------------------------

/// The UTF-8 bytes of a key: keys are ordered by them, as strings order.
pub open spec fn key_bytes(key: Seq<char>) -> Seq<u8> {
    encode_utf8(key)
}

/// `a` sorts strictly before `b`.
#[verifier::opaque]
pub open spec fn key_less(a: Seq<char>, b: Seq<char>) -> bool {
    lex_less(key_bytes(a), key_bytes(b))
}

proof fn lemma_lex_total(a: Seq<u8>, b: Seq<u8>)
    ensures
        a == b || lex_less(a, b) || lex_less(b, a),
    decreases a.len(),
{
    if a.len() > 0 && b.len() > 0 && a[0] == b[0] {
        lemma_lex_total(a.drop_first(), b.drop_first());
        if a.drop_first() == b.drop_first() {
            assert(a =~= seq![a[0]] + a.drop_first());
            assert(b =~= seq![b[0]] + b.drop_first());
        }
    }
}

/// Keys compare like their bytes: equal keys have equal bytes, and distinct
/// keys are ordered one way or the other.
pub proof fn lemma_key_order(a: Seq<char>, b: Seq<char>, c: Seq<char>)
    ensures
        !key_less(a, a),
        key_less(a, b) && key_less(b, c) ==> key_less(a, c),
        a == b || key_less(a, b) || key_less(b, a),
        key_less(a, b) ==> a != b && !key_less(b, a),
{
    reveal(key_less);
    lemma_lex_less_irreflexive(key_bytes(a));
    lemma_lex_less_irreflexive(key_bytes(b));
    if key_less(a, b) && key_less(b, c) {
        lemma_lex_less_transitive(key_bytes(a), key_bytes(b), key_bytes(c));
    }
    if key_less(a, b) && key_less(b, a) {
        lemma_lex_less_transitive(key_bytes(a), key_bytes(b), key_bytes(a));
    }
    lemma_lex_total(key_bytes(a), key_bytes(b));
    encode_utf8_decode_utf8(a);
    encode_utf8_decode_utf8(b);
}

fn bytes_less(a: &[u8], b: &[u8]) -> (r: bool)
    ensures
        r == lex_less(a@, b@),
{
    let mut i: usize = 0;
    proof {
        assert(a@.skip(0) =~= a@);
        assert(b@.skip(0) =~= b@);
    }
    while i < a.len() && i < b.len()
        invariant
            i <= a@.len(),
            i <= b@.len(),
            lex_less(a@, b@) == lex_less(a@.skip(i as int), b@.skip(i as int)),
        decreases a@.len() - i,
    {
        proof {
            assert(a@.skip(i as int).drop_first() =~= a@.skip(i as int + 1));
            assert(b@.skip(i as int).drop_first() =~= b@.skip(i as int + 1));
        }
        if a[i] != b[i] {
            return a[i] < b[i];
        }
        i = i + 1;
    }
    i < b.len()
}

/// Whether key `a` sorts strictly before key `b`.
pub fn key_before(a: &str, b: &str) -> (r: bool)
    ensures
        r == key_less(a@, b@),
{
    proof {
        reveal(key_less);
    }
    bytes_less(a.as_bytes(), b.as_bytes())
}

pub(crate) fn same_key(a: &str, b: &str) -> (r: bool)
    ensures
        r == (a@ == b@),
{
    String::from_str(a) == String::from_str(b)
}

// ---------------------------------------------------------------------------
// Outcome labels and node validation
// ---------------------------------------------------------------------------

/// The outcome a terminal label names.
pub open spec fn outcome_label(text: Seq<char>) -> Option<GroundTruthOutcome> {
    if text == "loss"@ {
        Some(GroundTruthOutcome::Loss)
    } else if text == "draw"@ {
        Some(GroundTruthOutcome::Draw)
    } else if text == "win"@ {
        Some(GroundTruthOutcome::Win)
    } else if text == "unknown"@ {
        Some(GroundTruthOutcome::Unknown)
    } else {
        None
    }
}

pub fn parse_outcome(text: &str) -> (r: Option<GroundTruthOutcome>)
    ensures
        r == outcome_label(text@),
{
    if same_key(text, "loss") {
        Some(GroundTruthOutcome::Loss)
    } else if same_key(text, "draw") {
        Some(GroundTruthOutcome::Draw)
    } else if same_key(text, "win") {
        Some(GroundTruthOutcome::Win)
    } else if same_key(text, "unknown") {
        Some(GroundTruthOutcome::Unknown)
    } else {
        None
    }
}

/// The child keys that the action edges lead to.
pub open spec fn edge_children(actions: Seq<(Seq<char>, Seq<char>)>) -> Set<Seq<char>> {
    actions.map_values(|edge: (Seq<char>, Seq<char>)| edge.1).to_set()
}

/// The message `retrograde node <key><rest>`.
pub open spec fn node_message(key: Seq<char>, rest: Seq<char>) -> Seq<char> {
    "retrograde node "@ + key + rest
}

/// Why a node is refused, if it is: checked in this order.
pub open spec fn node_problem(node: NodeView) -> Option<Seq<char>> {
    if node.key.len() == 0 {
        Some("retrograde node key cannot be empty"@)
    } else if exists|i: int| 0 <= i < node.children.len() && (#[trigger] node.children[i]).len() == 0 {
        Some(node_message(node.key, " has an empty child key"@))
    } else if node.terminal matches Some(text) && outcome_label(text) is None {
        Some(node_message(node.key, " has an invalid terminal outcome"@))
    } else if node.seed matches Some(value) && !value.outcome.known() {
        Some(node_message(node.key, " has an unknown seed value"@))
    } else if exists|i: int|
        0 <= i < node.actions.len() && ((#[trigger] node.actions[i]).0.len() == 0
            || node.actions[i].1.len() == 0) {
        Some(node_message(node.key, " has an empty action edge"@))
    } else if node.actions.len() > 0 && edge_children(node.actions) != node.children.to_set() {
        Some(node_message(node.key, " action edges must align with children"@))
    } else {
        None
    }
}

fn node_error(key: &str, rest: &str) -> (r: String)
    ensures
        r@ == node_message(key@, rest@),
{
    String::from_str("retrograde node ").concat(key).concat(rest)
}

/// Whether `keys` lists `key`.
fn lists_key(keys: &Vec<String>, key: &str) -> (r: bool)
    ensures
        r == keys@.map_values(|k: String| k@).contains(key@),
{
    let ghost texts = keys@.map_values(|k: String| k@);
    let mut i: usize = 0;
    while i < keys.len()
        invariant
            i <= keys@.len(),
            texts == keys@.map_values(|k: String| k@),
            forall|j: int| 0 <= j < i ==> texts[j] != key@,
        decreases keys@.len() - i,
    {
        if same_key(keys[i].as_str(), key) {
            assert(texts[i as int] == key@);
            return true;
        }
        i = i + 1;
    }
    false
}

/// Whether some action edge leads to `key`.
fn edges_reach(actions: &Vec<RetrogradeEdge>, key: &str) -> (r: bool)
    ensures
        r == actions@.map_values(|edge: RetrogradeEdge| edge@).map_values(
            |edge: (Seq<char>, Seq<char>)| edge.1,
        ).contains(key@),
{
    let ghost targets = actions@.map_values(|edge: RetrogradeEdge| edge@).map_values(
        |edge: (Seq<char>, Seq<char>)| edge.1,
    );
    let mut i: usize = 0;
    while i < actions.len()
        invariant
            i <= actions@.len(),
            targets == actions@.map_values(|edge: RetrogradeEdge| edge@).map_values(
                |edge: (Seq<char>, Seq<char>)| edge.1,
            ),
            forall|j: int| 0 <= j < i ==> targets[j] != key@,
        decreases actions@.len() - i,
    {
        if same_key(actions[i].child.as_str(), key) {
            assert(targets[i as int] == key@);
            return true;
        }
        i = i + 1;
    }
    false
}

/// Whether `text` is empty.
fn is_blank(text: &str) -> (r: bool)
    ensures
        r == (text@.len() == 0),
{
    proof {
        reveal_strlit("");
    }
    let blank = same_key(text, "");
    proof {
        if text@.len() == 0 {
            assert(text@ =~= ""@);
        }
    }
    blank
}

/// Checks a node the way the graph does before accepting it.
pub fn validate_node(node: &RetrogradeNode) -> (r: Result<(), String>)
    ensures
        match node_problem(node@) {
            Some(message) => r matches Err(e) && e@ == message,
            None => r is Ok,
        },
{
    let ghost view = node@;
    if is_blank(node.key.as_str()) {
        return Err(String::from_str("retrograde node key cannot be empty"));
    }
    let mut i: usize = 0;
    while i < node.children.len()
        invariant
            view == node@,
            view.key.len() != 0,
            i <= node.children@.len(),
            forall|j: int| 0 <= j < i ==> (#[trigger] view.children[j]).len() != 0,
        decreases node.children@.len() - i,
    {
        if is_blank(node.children[i].as_str()) {
            assert(view.children[i as int].len() == 0);
            assert(exists|j: int| 0 <= j < view.children.len() && (#[trigger] view.children[j]).len() == 0);
            assert(node_problem(view) == Some(node_message(view.key, " has an empty child key"@)));
            return Err(node_error(node.key.as_str(), " has an empty child key"));
        }
        i = i + 1;
    }
    match &node.terminal {
        Some(text) => {
            if parse_outcome(text.as_str()).is_none() {
                return Err(node_error(node.key.as_str(), " has an invalid terminal outcome"));
            }
        },
        None => {},
    }
    match node.seed {
        Some(value) => {
            if !value.outcome.is_known() {
                return Err(node_error(node.key.as_str(), " has an unknown seed value"));
            }
        },
        None => {},
    }
    let mut k: usize = 0;
    while k < node.actions.len()
        invariant
            view == node@,
            view.key.len() != 0,
            forall|j: int| 0 <= j < view.children.len() ==> (#[trigger] view.children[j]).len() != 0,
            !(view.terminal matches Some(text) && outcome_label(text) is None),
            !(view.seed matches Some(value) && !value.outcome.known()),
            k <= node.actions@.len(),
            forall|j: int|
                0 <= j < k ==> !((#[trigger] view.actions[j]).0.len() == 0 || view.actions[j].1.len()
                    == 0),
        decreases node.actions@.len() - k,
    {
        if is_blank(node.actions[k].action.as_str()) || is_blank(node.actions[k].child.as_str()) {
            assert(view.actions[k as int].0.len() == 0 || view.actions[k as int].1.len() == 0);
            assert(exists|j: int|
                0 <= j < view.actions.len() && ((#[trigger] view.actions[j]).0.len() == 0
                    || view.actions[j].1.len() == 0));
            return Err(node_error(node.key.as_str(), " has an empty action edge"));
        }
        k = k + 1;
    }
    if node.actions.len() > 0 {
        let ghost targets = view.actions.map_values(|edge: (Seq<char>, Seq<char>)| edge.1);
        let mut aligned = true;
        let mut a: usize = 0;
        while a < node.actions.len() && aligned
            invariant
                view == node@,
            view.key.len() != 0,
                forall|j: int| 0 <= j < view.children.len() ==> (#[trigger] view.children[j]).len() != 0,
                !(view.terminal matches Some(text) && outcome_label(text) is None),
                !(view.seed matches Some(value) && !value.outcome.known()),
                    forall|j: int|
                        0 <= j < view.actions.len() ==> !((#[trigger] view.actions[j]).0.len() == 0
                            || view.actions[j].1.len() == 0),
                a <= node.actions@.len(),
                targets == view.actions.map_values(|edge: (Seq<char>, Seq<char>)| edge.1),
                aligned ==> forall|j: int| 0 <= j < a ==> view.children.contains(#[trigger] targets[j]),
                !aligned ==> exists|j: int| 0 <= j < targets.len() && !view.children.contains(#[trigger] targets[j]),
            decreases node.actions@.len() - a + (if aligned { 1int } else { 0int }),
        {
            if !lists_key(&node.children, node.actions[a].child.as_str()) {
                assert(!view.children.contains(targets[a as int]));
                aligned = false;
            } else {
                a = a + 1;
            }
        }
        let mut c: usize = 0;
        while c < node.children.len() && aligned
            invariant
                view == node@,
            view.key.len() != 0,
                forall|j: int| 0 <= j < view.children.len() ==> (#[trigger] view.children[j]).len() != 0,
                !(view.terminal matches Some(text) && outcome_label(text) is None),
                !(view.seed matches Some(value) && !value.outcome.known()),
                    forall|j: int|
                        0 <= j < view.actions.len() ==> !((#[trigger] view.actions[j]).0.len() == 0
                            || view.actions[j].1.len() == 0),
                c <= node.children@.len(),
                targets == view.actions.map_values(|edge: (Seq<char>, Seq<char>)| edge.1),
                aligned ==> forall|j: int| 0 <= j < targets.len() ==> view.children.contains(#[trigger] targets[j]),
                aligned ==> forall|j: int| 0 <= j < c ==> targets.contains(#[trigger] view.children[j]),
                !aligned ==> (exists|j: int| 0 <= j < targets.len() && !view.children.contains(#[trigger] targets[j]))
                    || (exists|j: int| 0 <= j < view.children.len() && !targets.contains(#[trigger] view.children[j])),
            decreases node.children@.len() - c + (if aligned { 1int } else { 0int }),
        {
            if !edges_reach(&node.actions, node.children[c].as_str()) {
                assert(!targets.contains(view.children[c as int]));
                aligned = false;
            } else {
                c = c + 1;
            }
        }
        proof {
            if aligned {
                assert(edge_children(view.actions) =~= view.children.to_set()) by {
                    assert forall|x: Seq<char>| edge_children(view.actions).contains(x) implies view.children.to_set().contains(x) by {
                        let j = choose|j: int| 0 <= j < targets.len() && targets[j] == x;
                    }
                    assert forall|x: Seq<char>| view.children.to_set().contains(x) implies edge_children(view.actions).contains(x) by {
                        let j = choose|j: int| 0 <= j < view.children.len() && view.children[j] == x;
                    }
                }
            } else {
                if exists|j: int| 0 <= j < targets.len() && !view.children.contains(#[trigger] targets[j]) {
                    let j = choose|j: int| 0 <= j < targets.len() && !view.children.contains(#[trigger] targets[j]);
                    assert(edge_children(view.actions).contains(targets[j]));
                    assert(!view.children.to_set().contains(targets[j]));
                } else {
                    let j = choose|j: int| 0 <= j < view.children.len() && !targets.contains(#[trigger] view.children[j]);
                    assert(view.children.to_set().contains(view.children[j]));
                    assert(!edge_children(view.actions).contains(view.children[j]));
                }
            }
        }
        if !aligned {
            return Err(node_error(node.key.as_str(), " action edges must align with children"));
        }
    }
    Ok(())
}

fn same_keys(a: &Vec<String>, b: &Vec<String>) -> (r: bool)
    ensures
        r == (a@.map_values(|k: String| k@) == b@.map_values(|k: String| k@)),
{
    let ghost left = a@.map_values(|k: String| k@);
    let ghost right = b@.map_values(|k: String| k@);
    if a.len() != b.len() {
        assert(left.len() != right.len());
        return false;
    }
    let mut i: usize = 0;
    while i < a.len()
        invariant
            a@.len() == b@.len(),
            i <= a@.len(),
            left == a@.map_values(|k: String| k@),
            right == b@.map_values(|k: String| k@),
            forall|j: int| 0 <= j < i ==> left[j] == right[j],
        decreases a@.len() - i,
    {
        if !same_key(a[i].as_str(), b[i].as_str()) {
            assert(left[i as int] != right[i as int]);
            return false;
        }
        i = i + 1;
    }
    assert(left =~= right);
    true
}

fn same_edges(a: &Vec<RetrogradeEdge>, b: &Vec<RetrogradeEdge>) -> (r: bool)
    ensures
        r == (a@.map_values(|e: RetrogradeEdge| e@) == b@.map_values(|e: RetrogradeEdge| e@)),
{
    let ghost left = a@.map_values(|e: RetrogradeEdge| e@);
    let ghost right = b@.map_values(|e: RetrogradeEdge| e@);
    if a.len() != b.len() {
        assert(left.len() != right.len());
        return false;
    }
    let mut i: usize = 0;
    while i < a.len()
        invariant
            a@.len() == b@.len(),
            i <= a@.len(),
            left == a@.map_values(|e: RetrogradeEdge| e@),
            right == b@.map_values(|e: RetrogradeEdge| e@),
            forall|j: int| 0 <= j < i ==> left[j] == right[j],
        decreases a@.len() - i,
    {
        if !same_key(a[i].action.as_str(), b[i].action.as_str()) || !same_key(
            a[i].child.as_str(),
            b[i].child.as_str(),
        ) {
            assert(left[i as int] != right[i as int]);
            return false;
        }
        i = i + 1;
    }
    assert(left =~= right);
    true
}

/// Whether two nodes are the same in every field.
pub fn same_node(a: &RetrogradeNode, b: &RetrogradeNode) -> (r: bool)
    ensures
        r == (a@ == b@),
{
    let terminals_match = match (&a.terminal, &b.terminal) {
        (Some(x), Some(y)) => same_key(x.as_str(), y.as_str()),
        (None, None) => true,
        _ => false,
    };
    let seeds_match = match (a.seed, b.seed) {
        (Some(x), Some(y)) => x == y,
        (None, None) => true,
        _ => false,
    };
    let r = same_key(a.key.as_str(), b.key.as_str()) && same_keys(&a.children, &b.children)
        && a.complete == b.complete && terminals_match && seeds_match && same_edges(
        &a.actions,
        &b.actions,
    );
    proof {
        if r {
            assert(a@.terminal == b@.terminal);
            assert(a@ == b@);
        }
    }
    r
}

// ---------------------------------------------------------------------------
// The graph
// ---------------------------------------------------------------------------

/// Nodes in strictly increasing key order.
pub open spec fn nodes_ordered(nodes: Seq<NodeView>) -> bool {
    forall|i: int, j: int| 0 <= i < j < nodes.len() ==> key_less(#[trigger] nodes[i].key, #[trigger] nodes[j].key)
}

/// The node a key names, if any.
pub open spec fn holding(nodes: Seq<NodeView>, key: Seq<char>) -> Option<NodeView> {
    if exists|i: int| 0 <= i < nodes.len() && (#[trigger] nodes[i]).key == key {
        Some(nodes[choose|i: int| 0 <= i < nodes.len() && (#[trigger] nodes[i]).key == key])
    } else {
        None
    }
}

/// The position a key holds, if any.
pub open spec fn index_of(nodes: Seq<NodeView>, key: Seq<char>) -> Option<int> {
    if exists|i: int| 0 <= i < nodes.len() && (#[trigger] nodes[i]).key == key {
        Some(choose|i: int| 0 <= i < nodes.len() && (#[trigger] nodes[i]).key == key)
    } else {
        None
    }
}

/// In ordered nodes a key names exactly one position.
pub proof fn lemma_index_of(nodes: Seq<NodeView>, i: int)
    requires
        nodes_ordered(nodes),
        0 <= i < nodes.len(),
    ensures
        index_of(nodes, nodes[i].key) == Some(i),
        holding(nodes, nodes[i].key) == Some(nodes[i]),
{
    let j = choose|j: int| 0 <= j < nodes.len() && (#[trigger] nodes[j]).key == nodes[i].key;
    if j != i {
        if j < i {
            assert(key_less(nodes[j].key, nodes[i].key));
        } else {
            assert(key_less(nodes[i].key, nodes[j].key));
        }
        lemma_key_order(nodes[i].key, nodes[i].key, nodes[i].key);
    }
}

/// A positional map from canonical position keys to their nodes, in key
/// order.
pub struct RetrogradeGraph {
    nodes: Vec<RetrogradeNode>,
}

impl View for RetrogradeGraph {
    type V = Seq<NodeView>;

    closed spec fn view(&self) -> Seq<NodeView> {
        self.nodes@.map_values(|node: RetrogradeNode| node@)
    }
}

/// Where a key sorts among ordered nodes: every earlier key is smaller and
/// no later key is.
fn key_position(nodes: &Vec<RetrogradeNode>, key: &str) -> (r: usize)
    requires
        nodes_ordered(nodes@.map_values(|node: RetrogradeNode| node@)),
    ensures
        r <= nodes@.len(),
        forall|i: int| 0 <= i < r ==> key_less(#[trigger] nodes@[i]@.key, key@),
        forall|i: int| r <= i < nodes@.len() ==> !key_less(#[trigger] nodes@[i]@.key, key@),
{
    let ghost view = nodes@.map_values(|node: RetrogradeNode| node@);
    let mut low: usize = 0;
    let mut high: usize = nodes.len();
    while low < high
        invariant
            view == nodes@.map_values(|node: RetrogradeNode| node@),
            nodes_ordered(view),
            low <= high <= nodes@.len(),
            forall|i: int| 0 <= i < low ==> key_less(#[trigger] nodes@[i]@.key, key@),
            forall|i: int| high <= i < nodes@.len() ==> !key_less(#[trigger] nodes@[i]@.key, key@),
        decreases high - low,
    {
        let mid = low + (high - low) / 2;
        if key_before(nodes[mid].key.as_str(), key) {
            proof {
                assert forall|i: int| 0 <= i < mid + 1 implies key_less(#[trigger] nodes@[i]@.key, key@) by {
                    if i < mid {
                        assert(view[i] == nodes@[i]@ && view[mid as int] == nodes@[mid as int]@);
                        assert(key_less(view[i].key, view[mid as int].key));
                        lemma_key_order(nodes@[i]@.key, nodes@[mid as int]@.key, key@);
                    }
                }
            }
            low = mid + 1;
        } else {
            proof {
                assert forall|i: int| mid <= i < nodes@.len() implies !key_less(#[trigger] nodes@[i]@.key, key@) by {
                    if i > mid {
                        assert(view[i] == nodes@[i]@ && view[mid as int] == nodes@[mid as int]@);
                        assert(key_less(view[mid as int].key, view[i].key));
                        lemma_key_order(nodes@[mid as int]@.key, nodes@[i]@.key, key@);
                    }
                }
            }
            high = mid;
        }
    }
    low
}

/// The position of `key` among ordered nodes, if some node has it.
fn find_key(nodes: &Vec<RetrogradeNode>, key: &str) -> (r: Option<usize>)
    requires
        nodes_ordered(nodes@.map_values(|node: RetrogradeNode| node@)),
    ensures
        r matches Some(i) ==> i < nodes@.len() && nodes@[i as int]@.key == key@ && index_of(
            nodes@.map_values(|node: RetrogradeNode| node@),
            key@,
        ) == Some(i as int),
        r is None ==> index_of(nodes@.map_values(|node: RetrogradeNode| node@), key@) is None,
{
    let ghost view = nodes@.map_values(|node: RetrogradeNode| node@);
    let p = key_position(nodes, key);
    if p < nodes.len() && same_key(nodes[p].key.as_str(), key) {
        proof {
            assert(view[p as int].key == key@);
            lemma_index_of(view, p as int);
        }
        Some(p)
    } else {
        proof {
            assert forall|i: int| 0 <= i < view.len() implies (#[trigger] view[i]).key != key@ by {
                assert(view[i] == nodes@[i]@);
                if i < p {
                    lemma_key_order(view[i].key, key@, key@);
                } else if i > p {
                    assert(view[p as int] == nodes@[p as int]@);
                    assert(key_less(view[p as int].key, view[i].key));
                    lemma_key_order(view[p as int].key, view[i].key, key@);
                    lemma_key_order(view[p as int].key, key@, key@);
                }
            }
        }
        None
    }
}

proof fn lemma_holding_absent(nodes: Seq<NodeView>, key: Seq<char>)
    requires
        forall|i: int| 0 <= i < nodes.len() ==> (#[trigger] nodes[i]).key != key,
    ensures
        holding(nodes, key) is None,
        index_of(nodes, key) is None,
{
}

/// Placing a node with a new key at its sorted position.
proof fn lemma_holding_insert(old: Seq<NodeView>, p: int, node: NodeView)
    requires
        0 <= p <= old.len(),
        nodes_ordered(old),
        nodes_ordered(old.insert(p, node)),
        forall|i: int| 0 <= i < old.len() ==> (#[trigger] old[i]).key != node.key,
    ensures
        forall|k: Seq<char>| #[trigger] holding(old.insert(p, node), k) == if k == node.key {
            Some(node)
        } else {
            holding(old, k)
        },
{
    let new = old.insert(p, node);
    assert forall|k: Seq<char>| #[trigger] holding(new, k) == if k == node.key {
        Some(node)
    } else {
        holding(old, k)
    } by {
        if k == node.key {
            lemma_index_of(new, p);
        } else if exists|i: int| 0 <= i < old.len() && (#[trigger] old[i]).key == k {
            let i = choose|i: int| 0 <= i < old.len() && (#[trigger] old[i]).key == k;
            lemma_index_of(old, i);
            let j = if i < p { i } else { i + 1 };
            assert(new[j] == old[i]);
            lemma_index_of(new, j);
        } else {
            assert forall|i: int| 0 <= i < new.len() implies (#[trigger] new[i]).key != k by {
                if i < p {
                    assert(new[i] == old[i]);
                } else if i > p {
                    assert(new[i] == old[i - 1]);
                }
            }
        }
    }
}

/// Replacing the node at a key's position.
proof fn lemma_holding_update(old: Seq<NodeView>, p: int, node: NodeView)
    requires
        0 <= p < old.len(),
        old[p].key == node.key,
        nodes_ordered(old),
    ensures
        nodes_ordered(old.update(p, node)),
        forall|k: Seq<char>| #[trigger] holding(old.update(p, node), k) == if k == node.key {
            Some(node)
        } else {
            holding(old, k)
        },
{
    let new = old.update(p, node);
    assert(nodes_ordered(new)) by {
        assert forall|i: int, j: int| 0 <= i < j < new.len() implies key_less(#[trigger] new[i].key, #[trigger] new[j].key) by {
            assert(new[i].key == old[i].key && new[j].key == old[j].key);
        }
    }
    assert forall|k: Seq<char>| #[trigger] holding(new, k) == if k == node.key {
        Some(node)
    } else {
        holding(old, k)
    } by {
        if k == node.key {
            lemma_index_of(new, p);
        } else if exists|i: int| 0 <= i < old.len() && (#[trigger] old[i]).key == k {
            let i = choose|i: int| 0 <= i < old.len() && (#[trigger] old[i]).key == k;
            lemma_index_of(old, i);
            assert(i != p);
            assert(new[i] == old[i]);
            lemma_index_of(new, i);
        } else {
            assert forall|i: int| 0 <= i < new.len() implies (#[trigger] new[i]).key != k by {
                if i != p {
                    assert(new[i] == old[i]);
                }
            }
        }
    }
}

impl Default for RetrogradeGraph {
    fn default() -> (r: Self)
        ensures
            r@.len() == 0,
    {
        RetrogradeGraph::new()
    }
}

/// Every node passed validation.
pub open spec fn nodes_valid(nodes: Seq<NodeView>) -> bool {
    forall|i: int| 0 <= i < nodes.len() ==> node_problem(#[trigger] nodes[i]) is None
}

/// The number of child edges of the first `n` nodes.
pub open spec fn edges_below(nodes: Seq<NodeView>, n: nat) -> nat
    decreases n,
{
    if n == 0 {
        0
    } else {
        edges_below(nodes, (n - 1) as nat) + nodes[n - 1].children.len()
    }
}

impl RetrogradeGraph {
    #[verifier::type_invariant]
    closed spec fn inv(&self) -> bool {
        &&& nodes_ordered(self.nodes@.map_values(|node: RetrogradeNode| node@))
        &&& nodes_valid(self.nodes@.map_values(|node: RetrogradeNode| node@))
    }

    pub fn new() -> (r: RetrogradeGraph)
        ensures
            r@.len() == 0,
    {
        RetrogradeGraph { nodes: Vec::new() }
    }

    /// The graph's nodes in key order.
    pub fn nodes(&self) -> (r: &Vec<RetrogradeNode>)
        ensures
            r@.map_values(|node: RetrogradeNode| node@) == self@,
            nodes_ordered(self@),
            nodes_valid(self@),
    {
        proof {
            use_type_invariant(self);
        }
        &self.nodes
    }

    pub fn len(&self) -> (r: usize)
        ensures
            r == self@.len(),
    {
        self.nodes.len()
    }

    pub fn is_empty(&self) -> (r: bool)
        ensures
            r == (self@.len() == 0),
    {
        self.nodes.len() == 0
    }

    /// The number of child edges over all nodes (saturating at the largest
    /// `usize`).
    pub fn edge_count(&self) -> (r: usize)
        ensures
            r == if edges_below(self@, self@.len()) <= usize::MAX {
                edges_below(self@, self@.len()) as usize
            } else {
                usize::MAX
            },
    {
        let mut total: u128 = 0;
        let mut i: usize = 0;
        while i < self.nodes.len()
            invariant
                i <= self.nodes@.len(),
                total == edges_below(self@, i as nat),
                total <= i * (usize::MAX as int),
            decreases self.nodes@.len() - i,
        {
            let count = self.nodes[i].children.len();
            proof {
                assert(self@[i as int] == self.nodes@[i as int]@);
                assert(self@[i as int].children.len() == count);
                assert((i + 1) * (usize::MAX as int) == i * (usize::MAX as int) + usize::MAX) by (nonlinear_arith);
                assert(i * (usize::MAX as int) <= usize::MAX * (usize::MAX as int)) by (nonlinear_arith)
                    requires i <= usize::MAX;
            }
            total = total + count as u128;
            i = i + 1;
        }
        if total > usize::MAX as u128 {
            usize::MAX
        } else {
            total as usize
        }
    }

    /// Adds a node, refusing a malformed one. A node whose key is already
    /// present replaces the old one; the replacement is reported as a
    /// contradiction when the two differ.
    pub fn insert(&mut self, node: RetrogradeNode) -> (r: Result<(), String>)
        ensures
            node_problem(node@) matches Some(message) ==> (r matches Err(e) && e@ == message)
                && final(self)@ == old(self)@,
            node_problem(node@) is None ==> {
                &&& forall|k: Seq<char>| #[trigger] holding(final(self)@, k) == if k == node@.key {
                    Some(node@)
                } else {
                    holding(old(self)@, k)
                }
                &&& final(self)@.len() == old(self)@.len() + (if holding(old(self)@, node@.key) is None {
                    1int
                } else {
                    0int
                })
                &&& (r is Ok) == (holding(old(self)@, node@.key) is None || holding(
                    old(self)@,
                    node@.key,
                ) == Some(node@))
                &&& r matches Err(e) ==> e@ == "contradictory retrograde node "@ + node@.key
            },
    {
        proof {
            use_type_invariant(&*self);
        }
        match validate_node(&node) {
            Err(e) => {
                return Err(e);
            },
            Ok(()) => {},
        }
        let ghost before = self@;
        let mut nodes: Vec<RetrogradeNode> = Vec::new();
        std::mem::swap(&mut nodes, &mut self.nodes);
        assert(nodes@.map_values(|n: RetrogradeNode| n@) == before);
        let p = key_position(&nodes, node.key.as_str());
        if p < nodes.len() && same_key(nodes[p].key.as_str(), node.key.as_str()) {
            let consistent = same_node(&nodes[p], &node);
            let key = node.key.clone();
            proof {
                lemma_index_of(before, p as int);
                lemma_holding_update(before, p as int, node@);
            }
            nodes.set(p, node);
            proof {
                assert(nodes@.map_values(|n: RetrogradeNode| n@) =~= before.update(p as int, node@));
                assert forall|i: int| 0 <= i < before.update(p as int, node@).len() implies node_problem(#[trigger] before.update(p as int, node@)[i]) is None by {
                    if i != p {
                        assert(before.update(p as int, node@)[i] == before[i]);
                    }
                }
            }
            self.nodes = nodes;
            if consistent {
                Ok(())
            } else {
                Err(String::from_str("contradictory retrograde node ").concat(key.as_str()))
            }
        } else {
            proof {
                assert forall|i: int| 0 <= i < before.len() implies (#[trigger] before[i]).key != node@.key by {
                    assert(before[i] == nodes@[i]@);
                    if i < p {
                        lemma_key_order(before[i].key, node@.key, node@.key);
                    } else if i > p {
                        assert(before[p as int] == nodes@[p as int]@);
                        assert(key_less(before[p as int].key, before[i].key));
                        lemma_key_order(before[p as int].key, before[i].key, node@.key);
                        lemma_key_order(before[p as int].key, node@.key, node@.key);
                    }
                }
                lemma_holding_absent(before, node@.key);
            }
            let ghost placed = node@;
            nodes.insert(p, node);
            proof {
                let after = before.insert(p as int, placed);
                assert(nodes@.map_values(|n: RetrogradeNode| n@) =~= after);
                assert forall|i: int, j: int| 0 <= i < j < after.len() implies key_less(#[trigger] after[i].key, #[trigger] after[j].key) by {
                    if j < p {
                        assert(after[i] == before[i] && after[j] == before[j]);
                    } else if j == p {
                        assert(after[i] == before[i]);
                        assert(before[i] == nodes@[i]@);
                    } else if i > p {
                        assert(after[i] == before[i - 1] && after[j] == before[j - 1]);
                    } else if i == p {
                        assert(after[j] == before[j - 1]);
                        assert(!key_less(before[j - 1].key, placed.key));
                        lemma_key_order(before[j - 1].key, placed.key, placed.key);
                    } else {
                        assert(after[i] == before[i] && after[j] == before[j - 1]);
                    }
                }
                lemma_holding_insert(before, p as int, placed);
                assert forall|i: int| 0 <= i < after.len() implies node_problem(#[trigger] after[i]) is None by {
                    if i < p {
                        assert(after[i] == before[i]);
                    } else if i > p {
                        assert(after[i] == before[i - 1]);
                    }
                }
            }
            self.nodes = nodes;
            Ok(())
        }
    }
}

// ---------------------------------------------------------------------------
// Value tables
// ---------------------------------------------------------------------------

/// Entries in strictly increasing key order.
pub open spec fn entries_ordered(entries: Seq<(Seq<char>, RetrogradeValue)>) -> bool {
    forall|i: int, j: int|
        0 <= i < j < entries.len() ==> key_less(#[trigger] entries[i].0, #[trigger] entries[j].0)
}

/// The value an entry list gives a key, if any.
pub open spec fn value_of(entries: Seq<(Seq<char>, RetrogradeValue)>, key: Seq<char>) -> Option<RetrogradeValue> {
    if exists|i: int| 0 <= i < entries.len() && (#[trigger] entries[i]).0 == key {
        Some(entries[choose|i: int| 0 <= i < entries.len() && (#[trigger] entries[i]).0 == key].1)
    } else {
        None
    }
}

proof fn lemma_value_at(entries: Seq<(Seq<char>, RetrogradeValue)>, i: int)
    requires
        entries_ordered(entries),
        0 <= i < entries.len(),
    ensures
        value_of(entries, entries[i].0) == Some(entries[i].1),
{
    let j = choose|j: int| 0 <= j < entries.len() && (#[trigger] entries[j]).0 == entries[i].0;
    if j != i {
        if j < i {
            assert(key_less(entries[j].0, entries[i].0));
        } else {
            assert(key_less(entries[i].0, entries[j].0));
        }
        lemma_key_order(entries[i].0, entries[i].0, entries[i].0);
    }
}

pub open spec fn entry_view(entry: (String, RetrogradeValue)) -> (Seq<char>, RetrogradeValue) {
    (entry.0@, entry.1)
}

pub open spec fn entries_view(entries: Seq<(String, RetrogradeValue)>) -> Seq<(Seq<char>, RetrogradeValue)> {
    entries.map_values(|entry: (String, RetrogradeValue)| entry_view(entry))
}

/// Values by position key, in key order.
pub struct RetrogradeValues {
    entries: Vec<(String, RetrogradeValue)>,
}

impl View for RetrogradeValues {
    type V = Seq<(Seq<char>, RetrogradeValue)>;

    closed spec fn view(&self) -> Seq<(Seq<char>, RetrogradeValue)> {
        self.entries@.map_values(|entry: (String, RetrogradeValue)| entry_view(entry))
    }
}

fn entry_position(entries: &Vec<(String, RetrogradeValue)>, key: &str) -> (r: usize)
    requires
        entries_ordered(entries@.map_values(|entry: (String, RetrogradeValue)| entry_view(entry))),
    ensures
        r <= entries@.len(),
        forall|i: int| 0 <= i < r ==> key_less(#[trigger] entries@[i].0@, key@),
        forall|i: int| r <= i < entries@.len() ==> !key_less(#[trigger] entries@[i].0@, key@),
{
    let ghost view = entries@.map_values(|entry: (String, RetrogradeValue)| entry_view(entry));
    let mut low: usize = 0;
    let mut high: usize = entries.len();
    while low < high
        invariant
            view == entries@.map_values(|entry: (String, RetrogradeValue)| entry_view(entry)),
            entries_ordered(view),
            low <= high <= entries@.len(),
            forall|i: int| 0 <= i < low ==> key_less(#[trigger] entries@[i].0@, key@),
            forall|i: int| high <= i < entries@.len() ==> !key_less(#[trigger] entries@[i].0@, key@),
        decreases high - low,
    {
        let mid = low + (high - low) / 2;
        if key_before(entries[mid].0.as_str(), key) {
            proof {
                assert forall|i: int| 0 <= i < mid + 1 implies key_less(#[trigger] entries@[i].0@, key@) by {
                    if i < mid {
                        assert(view[i].0 == entries@[i].0@ && view[mid as int].0 == entries@[mid as int].0@);
                        assert(key_less(view[i].0, view[mid as int].0));
                        lemma_key_order(entries@[i].0@, entries@[mid as int].0@, key@);
                    }
                }
            }
            low = mid + 1;
        } else {
            proof {
                assert forall|i: int| mid <= i < entries@.len() implies !key_less(#[trigger] entries@[i].0@, key@) by {
                    if i > mid {
                        assert(view[i].0 == entries@[i].0@ && view[mid as int].0 == entries@[mid as int].0@);
                        assert(key_less(view[mid as int].0, view[i].0));
                        lemma_key_order(entries@[mid as int].0@, entries@[i].0@, key@);
                    }
                }
            }
            high = mid;
        }
    }
    low
}

impl RetrogradeValues {
    #[verifier::type_invariant]
    closed spec fn inv(&self) -> bool {
        entries_ordered(self.entries@.map_values(|entry: (String, RetrogradeValue)| entry_view(entry)))
    }

    pub fn new() -> (r: RetrogradeValues)
        ensures
            r@.len() == 0,
    {
        RetrogradeValues { entries: Vec::new() }
    }

    pub fn len(&self) -> (r: usize)
        ensures
            r == self@.len(),
    {
        self.entries.len()
    }

    pub fn is_empty(&self) -> (r: bool)
        ensures
            r == (self@.len() == 0),
    {
        self.entries.len() == 0
    }

    /// The entries in key order.
    pub fn entries(&self) -> (r: &Vec<(String, RetrogradeValue)>)
        ensures
            r@.map_values(|entry: (String, RetrogradeValue)| entry_view(entry)) == self@,
            entries_ordered(self@),
    {
        proof {
            use_type_invariant(self);
        }
        &self.entries
    }

    /// The position of `key`, if the table holds it.
    fn find(&self, key: &str) -> (r: Option<usize>)
        ensures
            r matches Some(i) ==> i < self@.len() && self@[i as int].0 == key@ && value_of(self@, key@)
                == Some(self@[i as int].1),
            r is None ==> value_of(self@, key@) is None,
    {
        proof {
            use_type_invariant(self);
        }
        let ghost view = self@;
        let p = entry_position(&self.entries, key);
        if p < self.entries.len() && same_key(self.entries[p].0.as_str(), key) {
            proof {
                assert(view[p as int].0 == key@);
                lemma_value_at(view, p as int);
            }
            Some(p)
        } else {
            proof {
                assert forall|i: int| 0 <= i < view.len() implies (#[trigger] view[i]).0 != key@ by {
                    assert(view[i].0 == self.entries@[i].0@);
                    if i < p {
                        lemma_key_order(view[i].0, key@, key@);
                    } else if i > p {
                        assert(view[p as int].0 == self.entries@[p as int].0@);
                        assert(key_less(view[p as int].0, view[i].0));
                        lemma_key_order(view[p as int].0, view[i].0, key@);
                        lemma_key_order(view[p as int].0, key@, key@);
                    }
                }
            }
            None
        }
    }

    pub fn get(&self, key: &str) -> (r: Option<RetrogradeValue>)
        ensures
            r == value_of(self@, key@),
    {
        match self.find(key) {
            Some(i) => Some(self.entries[i].1),
            None => None,
        }
    }

    pub fn contains_key(&self, key: &str) -> (r: bool)
        ensures
            r == value_of(self@, key@) is Some,
    {
        self.find(key).is_some()
    }

    /// Sets the value of `key`, replacing any earlier one.
    pub fn insert(&mut self, key: String, value: RetrogradeValue)
        ensures
            forall|k: Seq<char>| #[trigger] value_of(final(self)@, k) == if k == key@ {
                Some(value)
            } else {
                value_of(old(self)@, k)
            },
    {
        proof {
            use_type_invariant(&*self);
        }
        let ghost before = self@;
        let mut entries: Vec<(String, RetrogradeValue)> = Vec::new();
        std::mem::swap(&mut entries, &mut self.entries);
        assert(entries@.map_values(|entry: (String, RetrogradeValue)| entry_view(entry)) == before);
        let p = entry_position(&entries, key.as_str());
        let ghost k0 = key@;
        if p < entries.len() && same_key(entries[p].0.as_str(), key.as_str()) {
            entries.set(p, (key, value));
            let ghost after = before.update(p as int, (k0, value));
            proof {
                assert(entries@.map_values(|entry: (String, RetrogradeValue)| entry_view(entry)) =~= after);
                assert forall|i: int, j: int| 0 <= i < j < after.len() implies key_less(#[trigger] after[i].0, #[trigger] after[j].0) by {
                    assert(after[i].0 == before[i].0 && after[j].0 == before[j].0);
                }
                assert forall|k: Seq<char>| #[trigger] value_of(after, k) == if k == k0 {
                    Some(value)
                } else {
                    value_of(before, k)
                } by {
                    if k == k0 {
                        lemma_value_at(after, p as int);
                    } else if exists|i: int| 0 <= i < before.len() && (#[trigger] before[i]).0 == k {
                        let i = choose|i: int| 0 <= i < before.len() && (#[trigger] before[i]).0 == k;
                        lemma_value_at(before, i);
                        assert(i != p);
                        assert(after[i] == before[i]);
                        lemma_value_at(after, i);
                    } else {
                        assert forall|i: int| 0 <= i < after.len() implies (#[trigger] after[i]).0 != k by {
                            if i != p {
                                assert(after[i] == before[i]);
                            }
                        }
                    }
                }
            }
            self.entries = entries;
        } else {
            proof {
                assert forall|i: int| 0 <= i < before.len() implies (#[trigger] before[i]).0 != k0 by {
                    assert(before[i].0 == entries@[i].0@);
                    if i < p {
                        lemma_key_order(before[i].0, k0, k0);
                    } else if i > p {
                        assert(before[p as int].0 == entries@[p as int].0@);
                        assert(key_less(before[p as int].0, before[i].0));
                        lemma_key_order(before[p as int].0, before[i].0, k0);
                        lemma_key_order(before[p as int].0, k0, k0);
                    }
                }
            }
            entries.insert(p, (key, value));
            let ghost after = before.insert(p as int, (k0, value));
            proof {
                assert(entries@.map_values(|entry: (String, RetrogradeValue)| entry_view(entry)) =~= after);
                assert forall|i: int, j: int| 0 <= i < j < after.len() implies key_less(#[trigger] after[i].0, #[trigger] after[j].0) by {
                    if j < p {
                        assert(after[i] == before[i] && after[j] == before[j]);
                    } else if j == p {
                        assert(after[i] == before[i]);
                        assert(before[i].0 == entries@[i].0@);
                    } else if i > p {
                        assert(after[i] == before[i - 1] && after[j] == before[j - 1]);
                    } else if i == p {
                        assert(after[j] == before[j - 1]);
                        assert(before[j - 1].0 == old(self).entries@[j - 1].0@);
                        lemma_key_order(before[j - 1].0, k0, k0);
                    } else {
                        assert(after[i] == before[i] && after[j] == before[j - 1]);
                    }
                }
                assert forall|k: Seq<char>| #[trigger] value_of(after, k) == if k == k0 {
                    Some(value)
                } else {
                    value_of(before, k)
                } by {
                    if k == k0 {
                        lemma_value_at(after, p as int);
                    } else if exists|i: int| 0 <= i < before.len() && (#[trigger] before[i]).0 == k {
                        let i = choose|i: int| 0 <= i < before.len() && (#[trigger] before[i]).0 == k;
                        lemma_value_at(before, i);
                        let j = if i < p { i } else { i + 1 };
                        assert(after[j] == before[i]);
                        lemma_value_at(after, j);
                    } else {
                        assert forall|i: int| 0 <= i < after.len() implies (#[trigger] after[i]).0 != k by {
                            if i < p {
                                assert(after[i] == before[i]);
                            } else if i > p {
                                assert(after[i] == before[i - 1]);
                            }
                        }
                    }
                }
            }
            self.entries = entries;
        }
    }
}

// ---------------------------------------------------------------------------
// Propagation
// ---------------------------------------------------------------------------

/// The value a known terminal label gives its node: the outcome at distance
/// zero.
pub open spec fn terminal_value(node: NodeView) -> Option<RetrogradeValue> {
    match node.terminal {
        Some(text) => match outcome_label(text) {
            Some(outcome) => if outcome.known() {
                Some(RetrogradeValue { outcome, distance: Some(0) })
            } else {
                None
            },
            None => None,
        },
        None => None,
    }
}

/// The first problem among the first `n` checkpoint entries: a key the graph
/// lacks, or an unknown value.
pub open spec fn checkpoint_problem(
    graph: Seq<NodeView>,
    seed: Seq<(Seq<char>, RetrogradeValue)>,
    n: nat,
) -> Option<Seq<char>>
    decreases n,
{
    if n == 0 {
        None
    } else {
        match checkpoint_problem(graph, seed, (n - 1) as nat) {
            Some(message) => Some(message),
            None => {
                let entry = seed[n - 1];
                if holding(graph, entry.0) is None {
                    Some("checkpoint contains unknown node "@ + entry.0)
                } else if !entry.1.outcome.known() {
                    Some("checkpoint contains unknown value for node "@ + entry.0)
                } else {
                    None
                }
            },
        }
    }
}

/// The first of the first `n` nodes whose own seed disagrees with the
/// checkpoint.
pub open spec fn seed_conflict(
    graph: Seq<NodeView>,
    seed: Seq<(Seq<char>, RetrogradeValue)>,
    n: nat,
) -> Option<Seq<char>>
    decreases n,
{
    if n == 0 {
        None
    } else {
        match seed_conflict(graph, seed, (n - 1) as nat) {
            Some(message) => Some(message),
            None => {
                let node = graph[n - 1];
                if node.seed matches Some(own) && value_of(seed, node.key) matches Some(given) && given
                    != own {
                    Some("conflicting seed value for node "@ + node.key)
                } else {
                    None
                }
            },
        }
    }
}

/// The value a node has before its terminal label is read: the checkpoint's,
/// else its own seed.
pub open spec fn prior_value(node: NodeView, seed: Seq<(Seq<char>, RetrogradeValue)>) -> Option<RetrogradeValue> {
    match value_of(seed, node.key) {
        Some(value) => Some(value),
        None => node.seed,
    }
}

/// The first of the first `n` nodes whose terminal value disagrees with the
/// value it already has.
pub open spec fn terminal_conflict(
    graph: Seq<NodeView>,
    seed: Seq<(Seq<char>, RetrogradeValue)>,
    n: nat,
) -> Option<Seq<char>>
    decreases n,
{
    if n == 0 {
        None
    } else {
        match terminal_conflict(graph, seed, (n - 1) as nat) {
            Some(message) => Some(message),
            None => {
                let node = graph[n - 1];
                if terminal_value(node) matches Some(terminal) && prior_value(node, seed) matches Some(
                    prior,
                ) && prior != terminal {
                    Some("checkpoint contradicts terminal value for node "@ + node.key)
                } else {
                    None
                }
            },
        }
    }
}

/// Why a checkpoint cannot resume propagation on a graph, if it cannot.
pub open spec fn solve_problem(graph: Seq<NodeView>, seed: Seq<(Seq<char>, RetrogradeValue)>) -> Option<
    Seq<char>,
> {
    match checkpoint_problem(graph, seed, seed.len()) {
        Some(message) => Some(message),
        None => match seed_conflict(graph, seed, graph.len()) {
            Some(message) => Some(message),
            None => terminal_conflict(graph, seed, graph.len()),
        },
    }
}

/// The value a node starts propagation with: the checkpoint's, its own seed,
/// or its terminal value, in that order.
pub open spec fn start_value(node: NodeView, seed: Seq<(Seq<char>, RetrogradeValue)>) -> Option<RetrogradeValue> {
    match prior_value(node, seed) {
        Some(value) => Some(value),
        None => terminal_value(node),
    }
}

/// The number of draws among the first `n` entries.
pub open spec fn draws_below(entries: Seq<(Seq<char>, RetrogradeValue)>, n: nat) -> nat
    decreases n,
{
    if n == 0 {
        0
    } else {
        draws_below(entries, (n - 1) as nat) + if entries[n - 1].1.outcome == GroundTruthOutcome::Draw {
            1nat
        } else {
            0nat
        }
    }
}

/// What a solve returns: values only for graph nodes, all known; every
/// checkpoint value, node seed and terminal value kept; every other value
/// only for a node whose children were all enumerated; and the counts.
pub open spec fn solution_ok(
    graph: Seq<NodeView>,
    seed: Seq<(Seq<char>, RetrogradeValue)>,
    values: Seq<(Seq<char>, RetrogradeValue)>,
    stats: RetrogradeStats,
) -> bool {
    &&& forall|k: Seq<char>|
        #[trigger] value_of(values, k) matches Some(v) ==> (holding(graph, k) matches Some(node) && v.outcome.known()
            && (start_value(node, seed) == Some(v) || node.complete))
    &&& forall|k: Seq<char>| #[trigger] value_of(seed, k) matches Some(v) ==> value_of(values, k) == Some(v)
    &&& forall|i: int| 0 <= i < graph.len() && (#[trigger] graph[i]).seed is Some ==> value_of(values, graph[i].key) == graph[i].seed
    &&& forall|i: int| 0 <= i < graph.len() && terminal_value(#[trigger] graph[i]) is Some ==> value_of(values, graph[i].key) == terminal_value(graph[i])
    &&& stats.nodes == graph.len()
    &&& stats.edges == if edges_below(graph, graph.len()) <= usize::MAX {
        edges_below(graph, graph.len()) as usize
    } else {
        usize::MAX
    }
    &&& stats.solved == values.len()
    &&& stats.unknown == graph.len() - values.len()
    &&& values.len() <= graph.len()
    &&& stats.draws == draws_below(values, values.len())
    &&& stats.rounds >= 1
}

proof fn lemma_checkpoint_problem_stays(graph: Seq<NodeView>, seed: Seq<(Seq<char>, RetrogradeValue)>, a: nat, b: nat)
    requires
        a <= b <= seed.len(),
        checkpoint_problem(graph, seed, a) is Some,
    ensures
        checkpoint_problem(graph, seed, b) == checkpoint_problem(graph, seed, a),
    decreases b - a,
{
    if a < b {
        lemma_checkpoint_problem_stays(graph, seed, a, (b - 1) as nat);
    }
}

proof fn lemma_checkpoint_entries(graph: Seq<NodeView>, seed: Seq<(Seq<char>, RetrogradeValue)>, n: nat)
    requires
        n <= seed.len(),
        checkpoint_problem(graph, seed, n) is None,
    ensures
        forall|e: int| 0 <= e < n ==> holding(graph, (#[trigger] seed[e]).0) is Some && seed[e].1.outcome.known(),
    decreases n,
{
    if n > 0 {
        lemma_checkpoint_entries(graph, seed, (n - 1) as nat);
    }
}

proof fn lemma_seed_conflict_stays(graph: Seq<NodeView>, seed: Seq<(Seq<char>, RetrogradeValue)>, a: nat, b: nat)
    requires
        a <= b <= graph.len(),
        seed_conflict(graph, seed, a) is Some,
    ensures
        seed_conflict(graph, seed, b) == seed_conflict(graph, seed, a),
    decreases b - a,
{
    if a < b {
        lemma_seed_conflict_stays(graph, seed, a, (b - 1) as nat);
    }
}

proof fn lemma_no_seed_conflict(graph: Seq<NodeView>, seed: Seq<(Seq<char>, RetrogradeValue)>, n: nat)
    requires
        n <= graph.len(),
        seed_conflict(graph, seed, n) is None,
    ensures
        forall|i: int| 0 <= i < n && (#[trigger] graph[i]).seed is Some ==> prior_value(graph[i], seed) == graph[i].seed,
    decreases n,
{
    if n > 0 {
        lemma_no_seed_conflict(graph, seed, (n - 1) as nat);
    }
}

proof fn lemma_terminal_conflict_stays(graph: Seq<NodeView>, seed: Seq<(Seq<char>, RetrogradeValue)>, a: nat, b: nat)
    requires
        a <= b <= graph.len(),
        terminal_conflict(graph, seed, a) is Some,
    ensures
        terminal_conflict(graph, seed, b) == terminal_conflict(graph, seed, a),
    decreases b - a,
{
    if a < b {
        lemma_terminal_conflict_stays(graph, seed, a, (b - 1) as nat);
    }
}

proof fn lemma_no_terminal_conflict(graph: Seq<NodeView>, seed: Seq<(Seq<char>, RetrogradeValue)>, n: nat)
    requires
        n <= graph.len(),
        terminal_conflict(graph, seed, n) is None,
    ensures
        forall|i: int| 0 <= i < n && terminal_value(#[trigger] graph[i]) is Some ==> start_value(graph[i], seed) == terminal_value(graph[i]),
    decreases n,
{
    if n > 0 {
        lemma_no_terminal_conflict(graph, seed, (n - 1) as nat);
    }
}

/// Growing an ordered entry list by its next entry.
proof fn lemma_value_of_prefix(entries: Seq<(Seq<char>, RetrogradeValue)>, i: int)
    requires
        entries_ordered(entries),
        0 <= i < entries.len(),
    ensures
        forall|k: Seq<char>| #[trigger] value_of(entries.take(i + 1), k) == if k == entries[i].0 {
            Some(entries[i].1)
        } else {
            value_of(entries.take(i), k)
        },
{
    let longer = entries.take(i + 1);
    let shorter = entries.take(i);
    assert(entries_ordered(longer));
    assert(entries_ordered(shorter));
    assert forall|k: Seq<char>| #[trigger] value_of(longer, k) == if k == entries[i].0 {
        Some(entries[i].1)
    } else {
        value_of(shorter, k)
    } by {
        if k == entries[i].0 {
            lemma_value_at(longer, i);
        } else if exists|j: int| 0 <= j < shorter.len() && (#[trigger] shorter[j]).0 == k {
            let j = choose|j: int| 0 <= j < shorter.len() && (#[trigger] shorter[j]).0 == k;
            lemma_value_at(shorter, j);
            assert(longer[j] == shorter[j]);
            lemma_value_at(longer, j);
        } else {
            assert forall|j: int| 0 <= j < longer.len() implies (#[trigger] longer[j]).0 != k by {
                if j < i {
                    assert(longer[j] == shorter[j]);
                }
            }
        }
    }
}

proof fn lemma_keys_distinct(nodes: Seq<NodeView>, i: int, j: int)
    requires
        nodes_ordered(nodes),
        0 <= i < nodes.len(),
        0 <= j < nodes.len(),
        i != j,
    ensures
        nodes[i].key != nodes[j].key,
{
    if i < j {
        lemma_key_order(nodes[i].key, nodes[j].key, nodes[j].key);
    } else {
        lemma_key_order(nodes[j].key, nodes[i].key, nodes[i].key);
    }
}

/// The number of unset entries among the first `n`.
pub open spec fn unset_below<T>(values: Seq<Option<T>>, n: nat) -> nat
    decreases n,
{
    if n == 0 {
        0
    } else {
        unset_below(values, (n - 1) as nat) + if values[n - 1] is None {
            1nat
        } else {
            0nat
        }
    }
}

proof fn lemma_unset_update<T>(values: Seq<Option<T>>, n: nat, i: int, v: T)
    requires
        0 <= i < n <= values.len(),
        values[i] is None,
    ensures
        unset_below(values.update(i, Some(v)), n) + 1 == unset_below(values, n),
    decreases n,
{
    if i < n - 1 {
        lemma_unset_update(values, (n - 1) as nat, i, v);
    } else {
        lemma_unset_agree(values, values.update(i, Some(v)), (n - 1) as nat);
    }
}

proof fn lemma_unset_agree<T>(a: Seq<Option<T>>, b: Seq<Option<T>>, n: nat)
    requires
        n <= a.len(),
        n <= b.len(),
        forall|j: int| 0 <= j < n ==> (a[j] is None) == (b[j] is None),
    ensures
        unset_below(a, n) == unset_below(b, n),
    decreases n,
{
    if n > 0 {
        lemma_unset_agree(a, b, (n - 1) as nat);
    }
}

proof fn lemma_unset_bound<T>(values: Seq<Option<T>>, n: nat)
    requires
        n <= values.len(),
    ensures
        unset_below(values, n) <= n,
    decreases n,
{
    if n > 0 {
        lemma_unset_bound(values, (n - 1) as nat);
    }
}

/// What propagation keeps: every start value in place, and every other value
/// known and only on a complete node.
pub open spec fn propagation_ok(
    graph: Seq<NodeView>,
    seed: Seq<(Seq<char>, RetrogradeValue)>,
    solved: Seq<Option<RetrogradeValue>>,
) -> bool {
    &&& solved.len() == graph.len()
    &&& forall|j: int| 0 <= j < graph.len() && start_value(#[trigger] graph[j], seed) is Some ==> solved[j] == start_value(graph[j], seed)
    &&& forall|j: int|
        0 <= j < graph.len() && (#[trigger] solved[j]) is Some ==> solved[j].unwrap().outcome.known() && (start_value(
            graph[j],
            seed,
        ) == solved[j] || graph[j].complete)
}

/// The parent's view of a child value: the outcome negated, one ply further
/// (the distance saturates at its largest value).
pub open spec fn spec_parent_value(value: RetrogradeValue) -> RetrogradeValue {
    RetrogradeValue {
        outcome: value.outcome.negated(),
        distance: match value.distance {
            Some(d) => Some(
                if d == u16::MAX {
                    d
                } else {
                    (d + 1) as u16
                },
            ),
            None => None,
        },
    }
}

/// The parent's view of child `k`'s value.
pub open spec fn child_parent_value(
    links: Seq<Option<usize>>,
    solved: Seq<Option<RetrogradeValue>>,
    k: int,
) -> RetrogradeValue {
    spec_parent_value(solved[links[k].unwrap() as int].unwrap())
}

/// The first `n` children are linked and have values.
pub open spec fn valued_below(links: Seq<Option<usize>>, solved: Seq<Option<RetrogradeValue>>, n: int) -> bool {
    forall|k: int| 0 <= k < n ==> (#[trigger] links[k]) is Some && solved[links[k].unwrap() as int] is Some
}

/// `best` is the shortest distance of a win among the first `n` children's
/// parent values, or none when no such win carries a distance.
pub open spec fn win_best(links: Seq<Option<usize>>, solved: Seq<Option<RetrogradeValue>>, n: int, best: Option<u16>) -> bool {
    match best {
        None => forall|k: int|
            0 <= k < n ==> !((#[trigger] child_parent_value(links, solved, k)).outcome == GroundTruthOutcome::Win
                && child_parent_value(links, solved, k).distance is Some),
        Some(d) => {
            &&& exists|k: int|
                0 <= k < n && (#[trigger] child_parent_value(links, solved, k)).outcome == GroundTruthOutcome::Win
                    && child_parent_value(links, solved, k).distance == Some(d)
            &&& forall|k: int|
                0 <= k < n && (#[trigger] child_parent_value(links, solved, k)).outcome == GroundTruthOutcome::Win
                    && child_parent_value(links, solved, k).distance is Some ==> d <= child_parent_value(
                    links,
                    solved,
                    k,
                ).distance.unwrap()
        },
    }
}

/// `best` is the longest distance among the first `n` children's parent
/// values, or none when none carries a distance.
pub open spec fn far_best(links: Seq<Option<usize>>, solved: Seq<Option<RetrogradeValue>>, n: int, best: Option<u16>) -> bool {
    match best {
        None => forall|k: int| 0 <= k < n ==> (#[trigger] child_parent_value(links, solved, k)).distance is None,
        Some(d) => {
            &&& exists|k: int| 0 <= k < n && (#[trigger] child_parent_value(links, solved, k)).distance == Some(d)
            &&& forall|k: int|
                0 <= k < n && (#[trigger] child_parent_value(links, solved, k)).distance is Some
                    ==> child_parent_value(links, solved, k).distance.unwrap() <= d
        },
    }
}

/// Every one of the first `n` children's parent values is a loss.
pub open spec fn losses_below(links: Seq<Option<usize>>, solved: Seq<Option<RetrogradeValue>>, n: int) -> bool {
    forall|k: int| 0 <= k < n ==> (#[trigger] child_parent_value(links, solved, k)).outcome == GroundTruthOutcome::Loss
}

/// Every one of the first `n` children's parent values is known.
pub open spec fn known_below(links: Seq<Option<usize>>, solved: Seq<Option<RetrogradeValue>>, n: int) -> bool {
    forall|k: int| 0 <= k < n ==> (#[trigger] child_parent_value(links, solved, k)).outcome.known()
}

/// Propagation cannot yet give the node a value: it is incomplete, or a
/// child has no value, or no child decides it and some child is unknown.
pub open spec fn unresolvable(node: RetrogradeNode, links: Seq<Option<usize>>, solved: Seq<Option<RetrogradeValue>>) -> bool {
    let n = links.len() as int;
    ||| !node.complete
    ||| node.children@.len() > 0 && !valued_below(links, solved, n)
    ||| node.children@.len() > 0 && win_best(links, solved, n, None) && !losses_below(links, solved, n)
        && !known_below(links, solved, n)
}

/// The parent's view of a child value: the outcome negated, one ply further.
fn parent_value(value: RetrogradeValue) -> (r: RetrogradeValue)
    ensures
        r == spec_parent_value(value),
{
    RetrogradeValue {
        outcome: value.outcome.negate(),
        distance: match value.distance {
            Some(d) => Some(
                if d == u16::MAX {
                    d
                } else {
                    d + 1
                },
            ),
            None => None,
        },
    }
}

/// A node's value from its children's: a win at the shortest distance when
/// some child is a loss with a known distance; a loss at the longest known
/// distance when every child is a win; otherwise a draw. Nothing while the
/// node is incomplete or some child has no value; a complete node without
/// children is a draw.
fn resolve_node(
    node: &RetrogradeNode,
    links: &Vec<Option<usize>>,
    solved: &Vec<Option<RetrogradeValue>>,
) -> (r: Option<RetrogradeValue>)
    requires
        links@.len() == node.children@.len(),
        forall|c: int| 0 <= c < links@.len() && (#[trigger] links@[c]) is Some ==> links@[c].unwrap() < solved@.len(),
        forall|j: int| 0 <= j < solved@.len() && (#[trigger] solved@[j]) is Some ==> solved@[j].unwrap().outcome.known(),
    ensures
        r is Some ==> node.complete && r.unwrap().outcome.known(),
        !node.complete ==> r is None,
        node.complete && node.children@.len() == 0 ==> r == Some(
            RetrogradeValue { outcome: GroundTruthOutcome::Draw, distance: None },
        ),
        node.complete && node.children@.len() > 0 && !valued_below(links@, solved@, links@.len() as int)
            ==> r is None,
        r is None <==> unresolvable(*node, links@, solved@),
        node.complete && node.children@.len() > 0 && valued_below(links@, solved@, links@.len() as int) ==> {
            let n = links@.len() as int;
            &&& forall|d: u16| #[trigger] win_best(links@, solved@, n, Some(d)) ==> r == Some(
                RetrogradeValue { outcome: GroundTruthOutcome::Win, distance: Some(d) },
            )
            &&& win_best(links@, solved@, n, None) && losses_below(links@, solved@, n) ==> (r matches Some(v)
                && v.outcome == GroundTruthOutcome::Loss && far_best(links@, solved@, n, v.distance))
            &&& win_best(links@, solved@, n, None) && !losses_below(links@, solved@, n) && known_below(
                links@,
                solved@,
                n,
            ) ==> r == Some(RetrogradeValue { outcome: GroundTruthOutcome::Draw, distance: None })
            &&& win_best(links@, solved@, n, None) && !losses_below(links@, solved@, n) && !known_below(
                links@,
                solved@,
                n,
            ) ==> r is None
        },
{
    if !node.complete {
        return None;
    }
    if node.children.len() == 0 {
        return Some(RetrogradeValue { outcome: GroundTruthOutcome::Draw, distance: None });
    }
    let mut win_distance: Option<u16> = None;
    let mut all_loss = true;
    let mut loss_distance: Option<u16> = None;
    let mut all_known = true;
    let mut c: usize = 0;
    while c < links.len()
        invariant
            c <= links@.len(),
            forall|k: int| 0 <= k < links@.len() && (#[trigger] links@[k]) is Some ==> links@[k].unwrap() < solved@.len(),
            forall|j: int| 0 <= j < solved@.len() && (#[trigger] solved@[j]) is Some ==> solved@[j].unwrap().outcome.known(),
            node.complete,
            links@.len() == node.children@.len(),
            node.children@.len() > 0,
            valued_below(links@, solved@, c as int),
            win_best(links@, solved@, c as int, win_distance),
            far_best(links@, solved@, c as int, loss_distance),
            all_loss == losses_below(links@, solved@, c as int),
            all_known == known_below(links@, solved@, c as int),
        decreases links@.len() - c,
    {
        let ghost k = c as int;
        proof {
            if links@[k] is None || solved@[links@[k].unwrap() as int] is None {
                assert(!valued_below(links@, solved@, links@.len() as int));
            }
        }
        let child = match links[c] {
            Some(index) => match solved[index] {
                Some(value) => value,
                None => {
                    return None;
                },
            },
            None => {
                return None;
            },
        };
        let parent = parent_value(child);
        if parent.outcome == GroundTruthOutcome::Win {
            match parent.distance {
                Some(d) => {
                    win_distance = match win_distance {
                        Some(best) => Some(
                            if d < best {
                                d
                            } else {
                                best
                            },
                        ),
                        None => Some(d),
                    };
                },
                None => {},
            }
        }
        if parent.outcome != GroundTruthOutcome::Loss {
            all_loss = false;
        }
        match parent.distance {
            Some(d) => {
                loss_distance = match loss_distance {
                    Some(best) => Some(
                        if d > best {
                            d
                        } else {
                            best
                        },
                    ),
                    None => Some(d),
                };
            },
            None => {},
        }
        if !parent.outcome.is_known() {
            all_known = false;
        }
        proof {
            assert(parent == child_parent_value(links@, solved@, k));
            assert(valued_below(links@, solved@, k + 1));
            assert(losses_below(links@, solved@, k + 1) == (losses_below(links@, solved@, k) && parent.outcome
                == GroundTruthOutcome::Loss));
            assert(known_below(links@, solved@, k + 1) == (known_below(links@, solved@, k) && parent.outcome.known()));
            match win_distance {
                Some(d) => {
                    if parent.outcome == GroundTruthOutcome::Win && parent.distance is Some {
                        assert(child_parent_value(links@, solved@, k).distance == win_distance || exists|j: int|
                            0 <= j < k && (#[trigger] child_parent_value(links@, solved@, j)).outcome
                                == GroundTruthOutcome::Win && child_parent_value(links@, solved@, j).distance == win_distance);
                    }
                },
                None => {},
            }
        }
        c = c + 1;
    }
    match win_distance {
        Some(d) => {
            return Some(RetrogradeValue { outcome: GroundTruthOutcome::Win, distance: Some(d) });
        },
        None => {},
    }
    if all_loss {
        return Some(RetrogradeValue { outcome: GroundTruthOutcome::Loss, distance: loss_distance });
    }
    if all_known {
        Some(RetrogradeValue { outcome: GroundTruthOutcome::Draw, distance: None })
    } else {
        None
    }
}

/// The number of unvisited nodes.
pub open spec fn unvisited(visited: Seq<bool>, n: nat) -> nat
    decreases n,
{
    if n == 0 {
        0
    } else {
        unvisited(visited, (n - 1) as nat) + if visited[n - 1] {
            0nat
        } else {
            1nat
        }
    }
}

proof fn lemma_unvisited_update(visited: Seq<bool>, n: nat, i: int)
    requires
        0 <= i < n <= visited.len(),
        !visited[i],
    ensures
        unvisited(visited.update(i, true), n) + 1 == unvisited(visited, n),
    decreases n,
{
    if i < n - 1 {
        lemma_unvisited_update(visited, (n - 1) as nat, i);
    } else {
        lemma_unvisited_agree(visited, visited.update(i, true), (n - 1) as nat);
    }
}

proof fn lemma_unvisited_agree(a: Seq<bool>, b: Seq<bool>, n: nat)
    requires
        n <= a.len(),
        n <= b.len(),
        forall|j: int| 0 <= j < n ==> a[j] == b[j],
    ensures
        unvisited(a, n) == unvisited(b, n),
    decreases n,
{
    if n > 0 {
        lemma_unvisited_agree(a, b, (n - 1) as nat);
    }
}

/// `region` holds `start` and is closed: each of its nodes is complete,
/// every child of it is in the graph, and every child without a value is in
/// the region too.
pub open spec fn region_closed(
    nodes: Seq<RetrogradeNode>,
    links: Seq<Vec<Option<usize>>>,
    solved: Seq<Option<RetrogradeValue>>,
    start: int,
    region: Set<int>,
) -> bool {
    &&& region.contains(start)
    &&& forall|i: int| #[trigger] region.contains(i) ==> {
        &&& 0 <= i < nodes.len()
        &&& nodes[i].complete
        &&& forall|c: int| 0 <= c < links[i]@.len() ==> (#[trigger] links[i]@[c]) is Some && (solved[links[i]@[c].unwrap() as int] is None ==> region.contains(links[i]@[c].unwrap() as int))
    }
}

/// Every closed region around `start` holds `x`.
pub open spec fn forced_into_region(
    nodes: Seq<RetrogradeNode>,
    links: Seq<Vec<Option<usize>>>,
    solved: Seq<Option<RetrogradeValue>>,
    start: int,
    x: int,
) -> bool {
    forall|region: Set<int>| #[trigger] region_closed(nodes, links, solved, start, region) ==> region.contains(x)
}

/// A closed region stays closed when values are only added.
proof fn lemma_region_closed_grows(
    nodes: Seq<RetrogradeNode>,
    links: Seq<Vec<Option<usize>>>,
    before: Seq<Option<RetrogradeValue>>,
    after: Seq<Option<RetrogradeValue>>,
    start: int,
    region: Set<int>,
)
    requires
        region_closed(nodes, links, before, start, region),
        before.len() == after.len(),
        forall|j: int| 0 <= j < before.len() && (#[trigger] before[j]) is Some ==> after[j] is Some,
        forall|i: int, c: int|
            0 <= i < links.len() && 0 <= c < links[i]@.len() && (#[trigger] links[i]@[c]) is Some
                ==> links[i]@[c].unwrap() < before.len(),
        links.len() == nodes.len(),
    ensures
        region_closed(nodes, links, after, start, region),
{
    assert forall|i: int| #[trigger] region.contains(i) implies {
        &&& 0 <= i < nodes.len()
        &&& nodes[i].complete
        &&& forall|c: int| 0 <= c < links[i]@.len() ==> (#[trigger] links[i]@[c]) is Some && (after[links[i]@[c].unwrap() as int] is None ==> region.contains(links[i]@[c].unwrap() as int))
    } by {
        assert forall|c: int| 0 <= c < links[i]@.len() implies (#[trigger] links[i]@[c]) is Some && (after[links[i]@[c].unwrap() as int] is None ==> region.contains(links[i]@[c].unwrap() as int)) by {
            let ch = links[i]@[c].unwrap() as int;
            if after[ch] is None {
                assert(before[ch] is None);
            }
        }
    }
}

/// Whether every node reachable from `start` through children without a
/// value is a complete node of the graph, with every child in the graph.
fn closed_unresolved_region(
    nodes: &Vec<RetrogradeNode>,
    links: &Vec<Vec<Option<usize>>>,
    solved: &Vec<Option<RetrogradeValue>>,
    start: usize,
) -> (r: bool)
    requires
        start < nodes@.len(),
        links@.len() == nodes@.len(),
        solved@.len() == nodes@.len(),
        forall|i: int, c: int|
            0 <= i < links@.len() && 0 <= c < links@[i]@.len() && (#[trigger] links@[i]@[c]) is Some
                ==> links@[i]@[c].unwrap() < nodes@.len(),
    ensures
        r ==> nodes@[start as int].complete,
        r <==> exists|region: Set<int>| #[trigger] region_closed(nodes@, links@, solved@, start as int, region),
{
    let n = nodes.len();
    let mut visited: Vec<bool> = Vec::new();
    let mut v: usize = 0;
    while v < n
        invariant
            v <= n,
            n == nodes@.len(),
            visited@.len() == v,
            forall|j: int| 0 <= j < v ==> !visited@[j],
        decreases n - v,
    {
        visited.push(false);
        v = v + 1;
    }
    let mut stack: Vec<usize> = Vec::new();
    stack.push(start);
    while stack.len() > 0
        invariant
            n == nodes@.len(),
            start < n,
            visited@.len() == n,
            links@.len() == n,
            forall|i: int, c: int|
                0 <= i < links@.len() && 0 <= c < links@[i]@.len() && (#[trigger] links@[i]@[c]) is Some
                    ==> links@[i]@[c].unwrap() < n,
            forall|k: int| 0 <= k < stack@.len() ==> #[trigger] stack@[k] < n,
            visited@[start as int] ==> nodes@[start as int].complete,
            !visited@[start as int] ==> stack@.len() == 1 && stack@[0] == start,
            solved@.len() == n,
            forall|k: int| 0 <= k < stack@.len() ==> forced_into_region(nodes@, links@, solved@, start as int, #[trigger] stack@[k] as int),
            forall|j: int| 0 <= j < n && #[trigger] visited@[j] ==> forced_into_region(nodes@, links@, solved@, start as int, j)
                && nodes@[j].complete && forall|c: int| 0 <= c < links@[j]@.len() ==> (#[trigger] links@[j]@[c]) is Some
                && (solved@[links@[j]@[c].unwrap() as int] is None ==> visited@[links@[j]@[c].unwrap() as int]
                || stack@.contains(links@[j]@[c].unwrap())),
        decreases unvisited(visited@, n as nat), stack@.len(),
    {
        let ghost stack_before = stack@;
        let key = stack.pop().unwrap();
        proof {
            assert(stack_before[stack_before.len() - 1] == key);
            assert forall|x: usize| stack_before.contains(x) && x != key implies stack@.contains(x) by {
                let w = choose|w: int| 0 <= w < stack_before.len() && stack_before[w] == x;
                assert(stack@[w] == x);
            }
        }
        if visited[key] {
            continue;
        }
        let ghost before = visited@;
        proof {
            lemma_unvisited_update(before, n as nat, key as int);
        }
        visited.set(key, true);
        if !nodes[key].complete {
            proof {
                assert forall|region: Set<int>| !region_closed(nodes@, links@, solved@, start as int, region) by {
                    if region_closed(nodes@, links@, solved@, start as int, region) {
                        assert(region.contains(key as int));
                    }
                }
            }
            return false;
        }
        let children = &links[key];
        let mut c: usize = 0;
        while c < children.len()
            invariant
                n == nodes@.len(),
                start < n,
                visited@.len() == n,
                *children == links@[key as int],
                forall|i: int, c2: int|
                    0 <= i < links@.len() && 0 <= c2 < links@[i]@.len() && (#[trigger] links@[i]@[c2]) is Some
                        ==> links@[i]@[c2].unwrap() < n,
                key < links@.len(),
                forall|k: int| 0 <= k < stack@.len() ==> #[trigger] stack@[k] < n,
                visited@[start as int],
                nodes@[start as int].complete,
                solved@.len() == n,
                visited@[key as int],
                nodes@[key as int].complete,
                forced_into_region(nodes@, links@, solved@, start as int, key as int),
                forall|k: int| 0 <= k < stack@.len() ==> forced_into_region(nodes@, links@, solved@, start as int, #[trigger] stack@[k] as int),
                forall|j: int| 0 <= j < n && j != key && #[trigger] visited@[j] ==> forced_into_region(nodes@, links@, solved@, start as int, j)
                    && nodes@[j].complete && forall|c: int| 0 <= c < links@[j]@.len() ==> (#[trigger] links@[j]@[c]) is Some
                    && (solved@[links@[j]@[c].unwrap() as int] is None ==> visited@[links@[j]@[c].unwrap() as int]
                    || stack@.contains(links@[j]@[c].unwrap())),
                forall|c2: int| 0 <= c2 < c ==> (#[trigger] links@[key as int]@[c2]) is Some
                    && (solved@[links@[key as int]@[c2].unwrap() as int] is None ==> visited@[links@[key as int]@[c2].unwrap() as int]
                    || stack@.contains(links@[key as int]@[c2].unwrap())),
            decreases children@.len() - c,
        {
            let ghost stack_mid = stack@;
            match children[c] {
                Some(child) => {
                    if solved[child].is_none() {
                        proof {
                            assert forall|region: Set<int>| #[trigger] region_closed(nodes@, links@, solved@, start as int, region) implies region.contains(child as int) by {
                                assert(region.contains(key as int));
                                assert(links@[key as int]@[c as int] == Some(child));
                            }
                        }
                        stack.push(child);
                        proof {
                            assert forall|x: usize| stack_mid.contains(x) implies stack@.contains(x) by {
                                let w = choose|w: int| 0 <= w < stack_mid.len() && stack_mid[w] == x;
                                assert(stack@[w] == x);
                            }
                            assert(stack@[stack@.len() - 1] == child);
                        }
                    }
                },
                None => {
                    proof {
                        assert forall|region: Set<int>| !region_closed(nodes@, links@, solved@, start as int, region) by {
                            if region_closed(nodes@, links@, solved@, start as int, region) {
                                assert(region.contains(key as int));
                                assert(links@[key as int]@[c as int] is None);
                            }
                        }
                    }
                    return false;
                },
            }
            c = c + 1;
        }
    }
    proof {
        let region = Set::new(|j: int| 0 <= j < n && visited@[j]);
        assert(region_closed(nodes@, links@, solved@, start as int, region));
    }
    true
}

proof fn lemma_draws_agree(a: Seq<(Seq<char>, RetrogradeValue)>, b: Seq<(Seq<char>, RetrogradeValue)>, n: nat)
    requires
        n <= a.len(),
        n <= b.len(),
        forall|j: int| 0 <= j < n ==> a[j] == b[j],
    ensures
        draws_below(a, n) == draws_below(b, n),
    decreases n,
{
    if n > 0 {
        lemma_draws_agree(a, b, (n - 1) as nat);
    }
}

/// The table built from the propagated values satisfies the solve contract.
#[verifier::rlimit(100)]
proof fn lemma_solution(
    graph: Seq<NodeView>,
    given: Seq<(Seq<char>, RetrogradeValue)>,
    solved: Seq<Option<RetrogradeValue>>,
    out: Seq<(Seq<char>, RetrogradeValue)>,
    origin: Seq<int>,
    pos: Seq<int>,
)
    requires
        nodes_ordered(graph),
        entries_ordered(given),
        entries_ordered(out),
        propagation_ok(graph, given, solved),
        checkpoint_problem(graph, given, given.len()) is None,
        origin.len() == out.len(),
        pos.len() == graph.len(),
        forall|q: int|
            0 <= q < origin.len() ==> 0 <= #[trigger] origin[q] < graph.len() && out[q] == (
                graph[origin[q]].key,
                solved[origin[q]].unwrap(),
            ) && solved[origin[q]] is Some,
        forall|j: int|
            0 <= j < graph.len() && (#[trigger] solved[j]) is Some ==> 0 <= pos[j] < out.len() && out[pos[j]] == (
                graph[j].key,
                solved[j].unwrap(),
            ),
        forall|i: int| 0 <= i < graph.len() && (#[trigger] graph[i]).seed is Some ==> prior_value(graph[i], given) == graph[i].seed,
        forall|i: int| 0 <= i < graph.len() && terminal_value(#[trigger] graph[i]) is Some ==> start_value(graph[i], given) == terminal_value(graph[i]),
    ensures
        forall|k: Seq<char>|
            #[trigger] value_of(out, k) matches Some(v) ==> (holding(graph, k) matches Some(node) && v.outcome.known()
                && (start_value(node, given) == Some(v) || node.complete)),
        forall|k: Seq<char>| #[trigger] value_of(given, k) matches Some(v) ==> value_of(out, k) == Some(v),
        forall|i: int| 0 <= i < graph.len() && (#[trigger] graph[i]).seed is Some ==> value_of(out, graph[i].key) == graph[i].seed,
        forall|i: int| 0 <= i < graph.len() && terminal_value(#[trigger] graph[i]) is Some ==> value_of(out, graph[i].key) == terminal_value(graph[i]),
{
    lemma_checkpoint_entries(graph, given, given.len());
    assert forall|k: Seq<char>| #[trigger] value_of(out, k) is Some implies (holding(graph, k) is Some && value_of(out, k).unwrap().outcome.known()
        && (start_value(holding(graph, k).unwrap(), given) == value_of(out, k) || holding(graph, k).unwrap().complete)) by {
        let q = choose|q: int| 0 <= q < out.len() && (#[trigger] out[q]).0 == k;
        lemma_value_at(out, q);
        let j = origin[q];
        lemma_index_of(graph, j);
    }
    assert forall|j: int| 0 <= j < graph.len() && (#[trigger] solved[j]) is Some implies value_of(out, graph[j].key) == solved[j] by {
        lemma_value_at(out, pos[j]);
    }
    assert forall|k: Seq<char>| #[trigger] value_of(given, k) is Some implies value_of(out, k) == value_of(given, k) by {
        let w = choose|w: int| 0 <= w < given.len() && (#[trigger] given[w]).0 == k;
        lemma_value_at(given, w);
        assert(holding(graph, given[w].0) is Some);
        let j = choose|j: int| 0 <= j < graph.len() && (#[trigger] graph[j]).key == k;
        assert(start_value(graph[j], given) is Some);
        assert(solved[j] is Some);
    }
    assert forall|i: int| 0 <= i < graph.len() && (#[trigger] graph[i]).seed is Some implies value_of(out, graph[i].key) == graph[i].seed by {
        assert(start_value(graph[i], given) == graph[i].seed);
        assert(solved[i] is Some);
    }
    assert forall|i: int| 0 <= i < graph.len() && terminal_value(#[trigger] graph[i]) is Some implies value_of(out, graph[i].key) == terminal_value(graph[i]) by {
        assert(solved[i] is Some);
    }
}

/// The nodes as views, with the graph's order and validity.
pub open spec fn graph_shape(nodes: Seq<RetrogradeNode>, graph: Seq<NodeView>) -> bool {
    &&& graph == nodes.map_values(|node: RetrogradeNode| node@)
    &&& nodes_ordered(graph)
    &&& nodes_valid(graph)
}

/// Reads the checkpoint into one slot per node.
fn load_checkpoint(
    nodes: &Vec<RetrogradeNode>,
    entries: &Vec<(String, RetrogradeValue)>,
    Ghost(graph): Ghost<Seq<NodeView>>,
    Ghost(given): Ghost<Seq<(Seq<char>, RetrogradeValue)>>,
) -> (r: Result<Vec<Option<RetrogradeValue>>, String>)
    requires
        graph_shape(nodes@, graph),
        entries@.map_values(|entry: (String, RetrogradeValue)| entry_view(entry)) == given,
        entries_ordered(given),
    ensures
        r is Ok <==> checkpoint_problem(graph, given, given.len()) is None,
        r matches Err(e) ==> checkpoint_problem(graph, given, given.len()) == Some(e@),
        r matches Ok(solved) ==> solved@.len() == graph.len() && forall|j: int|
            0 <= j < graph.len() ==> solved@[j] == value_of(given, (#[trigger] graph[j]).key),
{
    let n = nodes.len();
    let mut solved: Vec<Option<RetrogradeValue>> = Vec::new();
    let mut z: usize = 0;
    while z < n
        invariant
            z <= n,
            n == nodes@.len(),
            solved@.len() == z,
            forall|j: int| 0 <= j < z ==> solved@[j] is None,
        decreases n - z,
    {
        solved.push(None);
        z = z + 1;
    }
    proof {
        assert forall|j: int| 0 <= j < n implies solved@[j] == value_of(given.take(0), #[trigger] graph[j].key) by {}
    }
    let mut e: usize = 0;
    while e < entries.len()
        invariant
            n == nodes@.len(),
            n == graph.len(),
            graph_shape(nodes@, graph),
            entries@.map_values(|entry: (String, RetrogradeValue)| entry_view(entry)) == given,
            entries_ordered(given),
            e <= given.len(),
            checkpoint_problem(graph, given, e as nat) is None,
            solved@.len() == n,
            forall|j: int| 0 <= j < n ==> solved@[j] == value_of(given.take(e as int), #[trigger] graph[j].key),
        decreases given.len() - e,
    {
        let key = entries[e].0.as_str();
        let value = entries[e].1;
        proof {
            assert(given[e as int] == (key@, value));
            lemma_value_of_prefix(given, e as int);
        }
        let index = match find_key(nodes, key) {
            Some(index) => index,
            None => {
                proof {
                    assert(checkpoint_problem(graph, given, e as nat + 1) == Some("checkpoint contains unknown node "@ + key@));
                    lemma_checkpoint_problem_stays(graph, given, e as nat + 1, given.len());
                }
                return Err(String::from_str("checkpoint contains unknown node ").concat(key));
            },
        };
        proof {
            lemma_index_of(graph, index as int);
        }
        if !value.outcome.is_known() {
            proof {
                assert(checkpoint_problem(graph, given, e as nat + 1) == Some("checkpoint contains unknown value for node "@ + key@));
                lemma_checkpoint_problem_stays(graph, given, e as nat + 1, given.len());
            }
            return Err(String::from_str("checkpoint contains unknown value for node ").concat(key));
        }
        let ghost before = solved@;
        solved.set(index, Some(value));
        proof {
            assert forall|j: int| 0 <= j < n implies solved@[j] == value_of(given.take(e as int + 1), #[trigger] graph[j].key) by {
                if j != index {
                    lemma_keys_distinct(graph, j, index as int);
                    assert(solved@[j] == before[j]);
                }
            }
        }
        e = e + 1;
    }
    proof {
        assert(given.take(given.len() as int) =~= given);
    }
    Ok(solved)
}

/// Adds each node's own seed, refusing one the checkpoint contradicts.
fn apply_node_seeds(
    nodes: &Vec<RetrogradeNode>,
    solved: &mut Vec<Option<RetrogradeValue>>,
    Ghost(graph): Ghost<Seq<NodeView>>,
    Ghost(given): Ghost<Seq<(Seq<char>, RetrogradeValue)>>,
) -> (r: Result<(), String>)
    requires
        graph_shape(nodes@, graph),
        old(solved)@.len() == graph.len(),
        forall|j: int| 0 <= j < graph.len() ==> old(solved)@[j] == value_of(given, (#[trigger] graph[j]).key),
    ensures
        r is Ok <==> seed_conflict(graph, given, graph.len()) is None,
        r matches Err(e) ==> seed_conflict(graph, given, graph.len()) == Some(e@),
        r is Ok ==> final(solved)@.len() == graph.len() && forall|j: int|
            0 <= j < graph.len() ==> final(solved)@[j] == prior_value(#[trigger] graph[j], given),
{
    let n = nodes.len();
    let mut i: usize = 0;
    while i < n
        invariant
            n == nodes@.len(),
            n == graph.len(),
            graph_shape(nodes@, graph),
            i <= n,
            seed_conflict(graph, given, i as nat) is None,
            solved@.len() == n,
            forall|j: int| 0 <= j < i ==> solved@[j] == prior_value(#[trigger] graph[j], given),
            forall|j: int| i <= j < n ==> solved@[j] == value_of(given, (#[trigger] graph[j]).key),
        decreases n - i,
    {
        proof {
            assert(graph[i as int] == nodes@[i as int]@);
        }
        match nodes[i].seed {
            Some(own) => match solved[i] {
                Some(previous) => {
                    if previous != own {
                        proof {
                            assert(seed_conflict(graph, given, i as nat + 1) == Some("conflicting seed value for node "@ + graph[i as int].key));
                            lemma_seed_conflict_stays(graph, given, i as nat + 1, n as nat);
                        }
                        return Err(String::from_str("conflicting seed value for node ").concat(nodes[i].key.as_str()));
                    }
                },
                None => {
                    solved.set(i, Some(own));
                },
            },
            None => {},
        }
        i = i + 1;
    }
    Ok(())
}

/// Adds each known terminal value, refusing one that contradicts the value
/// the node already has.
fn apply_terminals(
    nodes: &Vec<RetrogradeNode>,
    solved: &mut Vec<Option<RetrogradeValue>>,
    Ghost(graph): Ghost<Seq<NodeView>>,
    Ghost(given): Ghost<Seq<(Seq<char>, RetrogradeValue)>>,
) -> (r: Result<(), String>)
    requires
        graph_shape(nodes@, graph),
        old(solved)@.len() == graph.len(),
        forall|j: int| 0 <= j < graph.len() ==> old(solved)@[j] == prior_value(#[trigger] graph[j], given),
    ensures
        r is Ok <==> terminal_conflict(graph, given, graph.len()) is None,
        r matches Err(e) ==> terminal_conflict(graph, given, graph.len()) == Some(e@),
        r is Ok ==> final(solved)@.len() == graph.len() && forall|j: int|
            0 <= j < graph.len() ==> final(solved)@[j] == start_value(#[trigger] graph[j], given),
{
    let n = nodes.len();
    let mut t: usize = 0;
    while t < n
        invariant
            n == nodes@.len(),
            n == graph.len(),
            graph_shape(nodes@, graph),
            t <= n,
            terminal_conflict(graph, given, t as nat) is None,
            solved@.len() == n,
            forall|j: int| 0 <= j < t ==> solved@[j] == start_value(#[trigger] graph[j], given),
            forall|j: int| t <= j < n ==> solved@[j] == prior_value(#[trigger] graph[j], given),
        decreases n - t,
    {
        proof {
            assert(graph[t as int] == nodes@[t as int]@);
        }
        let terminal = match &nodes[t].terminal {
            Some(text) => match parse_outcome(text.as_str()) {
                Some(outcome) => if outcome.is_known() {
                    Some(RetrogradeValue { outcome, distance: Some(0) })
                } else {
                    None
                },
                None => None,
            },
            None => None,
        };
        assert(terminal == terminal_value(graph[t as int]));
        match terminal {
            Some(value) => match solved[t] {
                Some(previous) => {
                    if previous != value {
                        proof {
                            assert(terminal_conflict(graph, given, t as nat + 1) == Some("checkpoint contradicts terminal value for node "@ + graph[t as int].key));
                            lemma_terminal_conflict_stays(graph, given, t as nat + 1, n as nat);
                        }
                        return Err(String::from_str("checkpoint contradicts terminal value for node ").concat(nodes[t].key.as_str()));
                    }
                },
                None => {
                    solved.set(t, Some(value));
                },
            },
            None => {},
        }
        t = t + 1;
    }
    Ok(())
}

/// Well-formed child positions: one per child, each inside the graph.
pub open spec fn links_ok(nodes: Seq<RetrogradeNode>, links: Seq<Vec<Option<usize>>>) -> bool {
    &&& links.len() == nodes.len()
    &&& forall|i: int| 0 <= i < links.len() ==> (#[trigger] links[i])@.len() == nodes[i].children@.len()
    &&& forall|i: int, c: int|
        0 <= i < links.len() && 0 <= c < links[i]@.len() && (#[trigger] links[i]@[c]) is Some ==> links[i]@[c].unwrap()
            < nodes.len()
}

/// The position of every child key, where the graph holds it.
fn child_links(nodes: &Vec<RetrogradeNode>) -> (r: Vec<Vec<Option<usize>>>)
    requires
        nodes_ordered(nodes@.map_values(|node: RetrogradeNode| node@)),
    ensures
        links_ok(nodes@, r@),
{
    let n = nodes.len();
    let mut links: Vec<Vec<Option<usize>>> = Vec::new();
    let mut l: usize = 0;
    while l < n
        invariant
            n == nodes@.len(),
            l <= n,
            links@.len() == l,
            nodes_ordered(nodes@.map_values(|node: RetrogradeNode| node@)),
            forall|i: int| 0 <= i < l ==> (#[trigger] links@[i])@.len() == nodes@[i].children@.len(),
            forall|i: int, c: int|
                0 <= i < l && 0 <= c < links@[i]@.len() && (#[trigger] links@[i]@[c]) is Some
                    ==> links@[i]@[c].unwrap() < n,
        decreases n - l,
    {
        let children = &nodes[l].children;
        let mut row: Vec<Option<usize>> = Vec::new();
        let mut c: usize = 0;
        while c < children.len()
            invariant
                n == nodes@.len(),
                c <= children@.len(),
                row@.len() == c,
                nodes_ordered(nodes@.map_values(|node: RetrogradeNode| node@)),
                forall|k: int| 0 <= k < c && (#[trigger] row@[k]) is Some ==> row@[k].unwrap() < n,
            decreases children@.len() - c,
        {
            row.push(find_key(nodes, children[c].as_str()));
            c = c + 1;
        }
        links.push(row);
        l = l + 1;
    }
    links
}

/// Resolves nodes in rounds, each against the values at the round's start,
/// until a round resolves none; returns the number of rounds.
fn propagate(
    nodes: &Vec<RetrogradeNode>,
    links: &Vec<Vec<Option<usize>>>,
    solved: &mut Vec<Option<RetrogradeValue>>,
    Ghost(graph): Ghost<Seq<NodeView>>,
    Ghost(given): Ghost<Seq<(Seq<char>, RetrogradeValue)>>,
) -> (rounds: usize)
    requires
        graph_shape(nodes@, graph),
        links_ok(nodes@, links@),
        propagation_ok(graph, given, old(solved)@),
    ensures
        propagation_ok(graph, given, final(solved)@),
        rounds >= 1,
        final(solved)@.len() == old(solved)@.len(),
        forall|j: int| 0 <= j < old(solved)@.len() && (#[trigger] old(solved)@[j]) is Some ==> final(solved)@[j]
            == old(solved)@[j],
        forall|j: int| 0 <= j < nodes@.len() && (#[trigger] final(solved)@[j]) is None ==> unresolvable(
            nodes@[j],
            links@[j]@,
            final(solved)@,
        ),
{
    let n = nodes.len();
    let mut rounds: usize = 0;
    loop
        invariant
            n == nodes@.len(),
            n == graph.len(),
            graph_shape(nodes@, graph),
            links_ok(nodes@, links@),
            propagation_ok(graph, given, solved@),
            solved@.len() == old(solved)@.len(),
            forall|j: int| 0 <= j < old(solved)@.len() && (#[trigger] old(solved)@[j]) is Some ==> solved@[j]
                == old(solved)@[j],
        ensures
            propagation_ok(graph, given, solved@),
            rounds >= 1,
            solved@.len() == old(solved)@.len(),
            forall|j: int| 0 <= j < old(solved)@.len() && (#[trigger] old(solved)@[j]) is Some ==> solved@[j]
                == old(solved)@[j],
            forall|j: int| 0 <= j < n && (#[trigger] solved@[j]) is None ==> unresolvable(nodes@[j], links@[j]@, solved@),
        decreases unset_below(solved@, n as nat),
    {
        if rounds < usize::MAX {
            rounds = rounds + 1;
        }
        let mut updates: Vec<(usize, RetrogradeValue)> = Vec::new();
        let mut i: usize = 0;
        while i < n
            invariant
                n == nodes@.len(),
                n == graph.len(),
                graph_shape(nodes@, graph),
                links_ok(nodes@, links@),
                propagation_ok(graph, given, solved@),
                i <= n,
                forall|u: int| 0 <= u < updates@.len() ==> (#[trigger] updates@[u]).0 < i,
                forall|u: int, w: int| 0 <= u < w < updates@.len() ==> (#[trigger] updates@[u]).0 < (#[trigger] updates@[w]).0,
                forall|u: int| 0 <= u < updates@.len() ==> solved@[(#[trigger] updates@[u]).0 as int] is None
                    && graph[updates@[u].0 as int].complete && updates@[u].1.outcome.known(),
                updates@.len() == 0 ==> forall|j: int| 0 <= j < i && (#[trigger] solved@[j]) is None ==> unresolvable(nodes@[j], links@[j]@, solved@),
            decreases n - i,
        {
            if solved[i].is_none() {
                match resolve_node(&nodes[i], &links[i], &solved) {
                    Some(value) => {
                        proof {
                            assert(graph[i as int] == nodes@[i as int]@);
                        }
                        updates.push((i, value));
                    },
                    None => {},
                }
            }
            i = i + 1;
        }
        if updates.len() == 0 {
            break;
        }
        let ghost round_start = solved@;
        let mut k: usize = 0;
        while k < updates.len()
            invariant
                n == graph.len(),
                k <= updates@.len(),
                propagation_ok(graph, given, solved@),
                solved@.len() == old(solved)@.len(),
                forall|j: int| 0 <= j < old(solved)@.len() && (#[trigger] old(solved)@[j]) is Some ==> solved@[j]
                    == old(solved)@[j],
                forall|u: int, w: int| 0 <= u < w < updates@.len() ==> (#[trigger] updates@[u]).0 < (#[trigger] updates@[w]).0,
                forall|u: int| 0 <= u < updates@.len() ==> (#[trigger] updates@[u]).0 < n
                    && graph[updates@[u].0 as int].complete && updates@[u].1.outcome.known(),
                forall|u: int| k <= u < updates@.len() ==> solved@[(#[trigger] updates@[u]).0 as int] is None,
                unset_below(solved@, n as nat) + k == unset_below(round_start, n as nat),
            decreases updates@.len() - k,
        {
            let (index, value) = updates[k];
            let ghost before = solved@;
            proof {
                lemma_unset_update(before, n as nat, index as int, value);
                assert(start_value(graph[index as int], given) is None);
            }
            solved.set(index, Some(value));
            proof {
                assert forall|u: int| k + 1 <= u < updates@.len() implies solved@[(#[trigger] updates@[u]).0 as int] is None by {
                    assert(updates@[k as int].0 < updates@[u].0);
                }
            }
            k = k + 1;
        }
    }
    rounds
}

/// Marks as draws the unresolved nodes whose reachable unresolved region is
/// closed and complete.
fn close_regions(
    nodes: &Vec<RetrogradeNode>,
    links: &Vec<Vec<Option<usize>>>,
    solved: &mut Vec<Option<RetrogradeValue>>,
    Ghost(graph): Ghost<Seq<NodeView>>,
    Ghost(given): Ghost<Seq<(Seq<char>, RetrogradeValue)>>,
)
    requires
        graph_shape(nodes@, graph),
        links_ok(nodes@, links@),
        propagation_ok(graph, given, old(solved)@),
    ensures
        propagation_ok(graph, given, final(solved)@),
        final(solved)@.len() == old(solved)@.len(),
        forall|j: int| 0 <= j < old(solved)@.len() && (#[trigger] old(solved)@[j]) is Some ==> final(solved)@[j]
            == old(solved)@[j],
        forall|j: int|
            0 <= j < old(solved)@.len() && old(solved)@[j] is None && (#[trigger] final(solved)@[j]) is Some ==> {
                &&& final(solved)@[j] == Some(RetrogradeValue { outcome: GroundTruthOutcome::Draw, distance: None })
                &&& exists|region: Set<int>| #[trigger] region_closed(nodes@, links@, final(solved)@, j, region)
            },
{
    let n = nodes.len();
    let mut d: usize = 0;
    while d < n
        invariant
            n == nodes@.len(),
            n == graph.len(),
            graph_shape(nodes@, graph),
            links_ok(nodes@, links@),
            propagation_ok(graph, given, solved@),
            d <= n,
            solved@.len() == old(solved)@.len(),
            forall|j: int| 0 <= j < old(solved)@.len() && (#[trigger] old(solved)@[j]) is Some ==> solved@[j]
                == old(solved)@[j],
            forall|j: int|
                0 <= j < old(solved)@.len() && old(solved)@[j] is None && (#[trigger] solved@[j]) is Some ==> {
                    &&& solved@[j] == Some(RetrogradeValue { outcome: GroundTruthOutcome::Draw, distance: None })
                    &&& exists|region: Set<int>| #[trigger] region_closed(nodes@, links@, solved@, j, region)
                },
        decreases n - d,
    {
        if solved[d].is_none() && closed_unresolved_region(nodes, links, solved, d) {
            proof {
                assert(graph[d as int] == nodes@[d as int]@);
            }
            let ghost before = solved@;
            solved.set(d, Some(RetrogradeValue { outcome: GroundTruthOutcome::Draw, distance: None }));
            proof {
                assert forall|j: int|
                    0 <= j < old(solved)@.len() && old(solved)@[j] is None && (#[trigger] solved@[j]) is Some implies {
                        &&& solved@[j] == Some(RetrogradeValue { outcome: GroundTruthOutcome::Draw, distance: None })
                        &&& exists|region: Set<int>| #[trigger] region_closed(nodes@, links@, solved@, j, region)
                    } by {
                    let region = choose|region: Set<int>| #[trigger] region_closed(nodes@, links@, before, j, region);
                    lemma_region_closed_grows(nodes@, links@, before, solved@, j, region);
                }
            }
        }
        d = d + 1;
    }
}

/// The collected entries follow the nodes' order.
proof fn lemma_collected_order(
    graph: Seq<NodeView>,
    solved: Seq<Option<RetrogradeValue>>,
    entries: Seq<(String, RetrogradeValue)>,
    origin: Seq<int>,
)
    requires
        nodes_ordered(graph),
        origin.len() == entries.len(),
        forall|q: int| 0 <= q < origin.len() ==> 0 <= #[trigger] origin[q] < graph.len(),
        forall|q: int|
            0 <= q < origin.len() ==> entry_view(#[trigger] entries[q]) == (graph[origin[q]].key, solved[origin[q]].unwrap()),
        forall|a: int, b: int| 0 <= a < b < origin.len() ==> #[trigger] origin[a] < #[trigger] origin[b],
    ensures
        entries_ordered(entries_view(entries)),
{
    let out = entries_view(entries);
    assert forall|a: int, b: int| 0 <= a < b < out.len() implies key_less(#[trigger] out[a].0, #[trigger] out[b].0) by {
        assert(out[a] == entry_view(entries[a]) && out[b] == entry_view(entries[b]));
        assert(origin[a] < origin[b]);
        assert(key_less(graph[origin[a]].key, graph[origin[b]].key));
    }
}

/// The solved nodes' values in key order, and how many are draws; with,
/// for each entry, the node it came from, and for each solved node, its entry.
#[verifier::rlimit(100)]
fn collect_values(
    nodes: &Vec<RetrogradeNode>,
    solved: &Vec<Option<RetrogradeValue>>,
    Ghost(graph): Ghost<Seq<NodeView>>,
) -> (r: (Vec<(String, RetrogradeValue)>, usize, Ghost<Seq<int>>, Ghost<Seq<int>>))
    requires
        graph == nodes@.map_values(|node: RetrogradeNode| node@),
        nodes_ordered(graph),
        solved@.len() == graph.len(),
    ensures
        r.0@.len() <= graph.len(),
        entries_ordered(entries_view(r.0@)),
        r.2@.len() == r.0@.len(),
        r.3@.len() == graph.len(),
        forall|q: int|
            0 <= q < r.2@.len() ==> 0 <= #[trigger] r.2@[q] < graph.len() && entries_view(r.0@)[q] == (
                graph[r.2@[q]].key,
                solved@[r.2@[q]].unwrap(),
            ) && solved@[r.2@[q]] is Some,
        forall|j: int|
            0 <= j < graph.len() && (#[trigger] solved@[j]) is Some ==> 0 <= r.3@[j] < r.0@.len()
                && entries_view(r.0@)[r.3@[j]] == (graph[j].key, solved@[j].unwrap()),
        r.1 == draws_below(entries_view(r.0@), r.0@.len() as nat),
{
    let n = nodes.len();
    let mut entries_out: Vec<(String, RetrogradeValue)> = Vec::new();
    let mut draws: usize = 0;
    let mut o: usize = 0;
    let ghost mut origin: Seq<int> = Seq::empty();
    let ghost mut pos: Seq<int> = Seq::empty();
    while o < n
        invariant
            n == nodes@.len(),
            n == graph.len(),
            graph == nodes@.map_values(|node: RetrogradeNode| node@),
            nodes_ordered(graph),
            o <= n,
            solved@.len() == n,
            entries_out@.len() <= o,
            origin.len() == entries_out@.len(),
            pos.len() == o,
            forall|q: int| 0 <= q < origin.len() ==> 0 <= #[trigger] origin[q] < o,
            forall|q: int|
                0 <= q < origin.len() ==> entry_view(#[trigger] entries_out@[q]) == (graph[origin[q]].key, solved@[origin[q]].unwrap())
                    && solved@[origin[q]] is Some,
            forall|a: int, b: int| 0 <= a < b < origin.len() ==> #[trigger] origin[a] < #[trigger] origin[b],
            forall|j: int|
                0 <= j < o && (#[trigger] solved@[j]) is Some ==> 0 <= pos[j] < entries_out@.len() && entry_view(
                    entries_out@[pos[j]],
                ) == (graph[j].key, solved@[j].unwrap()),
            draws == draws_below(entries_out@.map_values(|entry: (String, RetrogradeValue)| entry_view(entry)), entries_out@.len() as nat),
            draws <= entries_out@.len(),
        decreases n - o,
    {
        let ghost before = entries_out@.map_values(|entry: (String, RetrogradeValue)| entry_view(entry));
        match solved[o] {
            Some(value) => {
                proof {
                    assert(graph[o as int] == nodes@[o as int]@);
                }
                let ghost old_entries = entries_out@;
                entries_out.push((nodes[o].key.clone(), value));
                if value.outcome == GroundTruthOutcome::Draw {
                    draws = draws + 1;
                }
                proof {
                    assert forall|q: int| 0 <= q < old_entries.len() implies entries_out@[q] == old_entries[q] by {}
                    assert(entry_view(entries_out@[old_entries.len() as int]) == (graph[o as int].key, solved@[o as int].unwrap()));
                    let after = entries_out@.map_values(|entry: (String, RetrogradeValue)| entry_view(entry));
                    assert(after.drop_last() =~= before);
                    lemma_draws_agree(before, after, before.len() as nat);
                    pos = pos.push(origin.len() as int);
                    origin = origin.push(o as int);
                }
            },
            None => {
                proof {
                    pos = pos.push(-1);
                }
            },
        }
        o = o + 1;
    }
    proof {
        lemma_collected_order(graph, solved@, entries_out@, origin);
        assert forall|q: int|
            0 <= q < origin.len() implies 0 <= #[trigger] origin[q] < graph.len() && entries_view(entries_out@)[q] == (
                graph[origin[q]].key,
                solved@[origin[q]].unwrap(),
            ) && solved@[origin[q]] is Some by {
            assert(entries_view(entries_out@)[q] == entry_view(entries_out@[q]));
        }
        assert forall|j: int|
            0 <= j < graph.len() && (#[trigger] solved@[j]) is Some implies 0 <= pos[j] < entries_out@.len()
                && entries_view(entries_out@)[pos[j]] == (graph[j].key, solved@[j].unwrap()) by {
            assert(entries_view(entries_out@)[pos[j]] == entry_view(entries_out@[pos[j]]));
        }
    }
    (entries_out, draws, Ghost(origin), Ghost(pos))
}

/// Every value the propagation starts with is known.
proof fn lemma_start_values_known(
    graph: Seq<NodeView>,
    given: Seq<(Seq<char>, RetrogradeValue)>,
    solved: Seq<Option<RetrogradeValue>>,
)
    requires
        nodes_valid(graph),
        checkpoint_problem(graph, given, given.len()) is None,
        solved.len() == graph.len(),
        forall|j: int| 0 <= j < graph.len() ==> solved[j] == start_value(#[trigger] graph[j], given),
    ensures
        propagation_ok(graph, given, solved),
{
    lemma_checkpoint_entries(graph, given, given.len());
    assert forall|j: int| 0 <= j < graph.len() && (#[trigger] solved[j]) is Some implies solved[j].unwrap().outcome.known() by {
        let node = graph[j];
        match value_of(given, node.key) {
            Some(v) => {
                let w = choose|w: int| 0 <= w < given.len() && (#[trigger] given[w]).0 == node.key;
                assert(given[w].1.outcome.known());
            },
            None => {
                assert(node_problem(node) is None);
            },
        }
    }
}

impl RetrogradeGraph {
    /// Continues propagation from a persisted checkpoint of exact values. The
    /// checkpoint is checked against this graph first, so a checkpoint from
    /// another frontier cannot slip into the result.
    #[verifier::rlimit(100)]
    pub fn solve_from_seed(&self, seed: &RetrogradeValues) -> (r: Result<(RetrogradeValues, RetrogradeStats), String>)
        ensures
            r is Ok <==> solve_problem(self@, seed@) is None,
            r matches Err(e) ==> solve_problem(self@, seed@) == Some(e@),
            r matches Ok((values, stats)) ==> solution_ok(self@, seed@, values@, stats),
    {
        proof {
            use_type_invariant(self);
            use_type_invariant(seed);
        }
        let ghost graph = self@;
        let ghost given = seed@;
        let nodes = &self.nodes;
        let n = nodes.len();
        let entries = seed.entries();
        let mut solved = match load_checkpoint(nodes, entries, Ghost(graph), Ghost(given)) {
            Ok(solved) => solved,
            Err(e) => {
                return Err(e);
            },
        };
        match apply_node_seeds(nodes, &mut solved, Ghost(graph), Ghost(given)) {
            Ok(()) => {},
            Err(e) => {
                return Err(e);
            },
        }
        match apply_terminals(nodes, &mut solved, Ghost(graph), Ghost(given)) {
            Ok(()) => {},
            Err(e) => {
                return Err(e);
            },
        }
        proof {
            lemma_no_seed_conflict(graph, given, n as nat);
            lemma_no_terminal_conflict(graph, given, n as nat);
            lemma_start_values_known(graph, given, solved@);
        }
        let links = child_links(nodes);
        let rounds = propagate(nodes, &links, &mut solved, Ghost(graph), Ghost(given));
        close_regions(nodes, &links, &mut solved, Ghost(graph), Ghost(given));
        let (entries_out, draws, Ghost(origin), Ghost(pos)) = collect_values(nodes, &solved, Ghost(graph));
        proof {
            lemma_solution(graph, given, solved@, entries_view(entries_out@), origin, pos);
        }
        let values = RetrogradeValues { entries: entries_out };
        let stats = RetrogradeStats {
            nodes: n,
            edges: self.edge_count(),
            rounds,
            solved: values.len(),
            draws,
            unknown: n - values.len(),
        };
        Ok((values, stats))
    }
}

/// The value of a child as its parent sees it, through one action edge:
/// the child's outcome negated at one ply further, or unknown when the child
/// has no value.
pub open spec fn edge_value(values: Seq<(Seq<char>, RetrogradeValue)>, child: Seq<char>) -> (GroundTruthOutcome, Option<u16>) {
    match value_of(values, child) {
        Some(value) => (
            value.outcome.negated(),
            match value.distance {
                Some(d) => Some(if d == u16::MAX { d } else { (d + 1) as u16 }),
                None => None,
            },
        ),
        None => (GroundTruthOutcome::Unknown, None),
    }
}

/// Through an action edge the parent sees its child's value from the other
/// side, one ply further: a child lost for its mover labels the move a win,
/// a won child a loss, a drawn child a draw, and a child with no value
/// leaves the move unknown.
pub proof fn law_edge_value_is_the_parent_view(values: Seq<(Seq<char>, RetrogradeValue)>, child: Seq<char>)
    ensures
        match value_of(values, child) {
            Some(v) => {
                &&& v.outcome == GroundTruthOutcome::Loss ==> edge_value(values, child).0 == GroundTruthOutcome::Win
                &&& v.outcome == GroundTruthOutcome::Win ==> edge_value(values, child).0 == GroundTruthOutcome::Loss
                &&& v.outcome == GroundTruthOutcome::Draw ==> edge_value(values, child).0 == GroundTruthOutcome::Draw
                &&& v.outcome == GroundTruthOutcome::Unknown ==> edge_value(values, child).0 == GroundTruthOutcome::Unknown
                &&& (v.distance is Some && v.distance.unwrap() < u16::MAX) ==> edge_value(values, child).1 == Some(
                    (v.distance.unwrap() + 1) as u16,
                )
                &&& v.distance == Some(u16::MAX) ==> edge_value(values, child).1 == Some(u16::MAX)
                &&& v.distance is None ==> edge_value(values, child).1 is None
                &&& (edge_value(values, child).0, edge_value(values, child).1) == (
                    spec_parent_value(v).outcome,
                    spec_parent_value(v).distance,
                )
            },
            None => edge_value(values, child) == (GroundTruthOutcome::Unknown, None::<u16>),
        },
{
}

/// The persisted result of a solve.
pub struct RetrogradeOutput {
    pub schema_version: u8,
    pub table_family: String,
    pub values: RetrogradeValues,
    pub stats: RetrogradeStats,
    pub action_values: Vec<(String, Vec<RetrogradeActionValue>)>,
}

/// A resumable checkpoint of the values proven so far; an absent key is
/// unknown and safe to revisit after a restart.
pub struct FrontierCheckpoint {
    pub schema_version: u8,
    pub table_family: String,
    pub input_nodes: usize,
    pub input_edges: usize,
    pub rounds: usize,
    pub solved: usize,
    pub draws: usize,
    pub unknown: usize,
    pub complete_graph: bool,
    pub values: RetrogradeValues,
}

fn copy_values(values: &RetrogradeValues) -> (r: RetrogradeValues)
    ensures
        r@ == values@,
{
    proof {
        use_type_invariant(values);
    }
    let entries = values.entries();
    let mut copied: Vec<(String, RetrogradeValue)> = Vec::new();
    let mut i: usize = 0;
    while i < entries.len()
        invariant
            i <= entries@.len(),
            entries_view(entries@) == values@,
            entries_ordered(values@),
            entries_view(copied@) == entries_view(entries@).take(i as int),
            copied@.len() == i,
        decreases entries@.len() - i,
    {
        let ghost before = copied@;
        let key = entries[i].0.clone();
        assert(key@ == entries@[i as int].0@);
        copied.push((key, entries[i].1));
        proof {
            assert(copied@ == before.push((key, entries@[i as int].1)));
            assert forall|j: int| 0 <= j < i + 1 implies #[trigger] entries_view(copied@)[j] == entries_view(entries@)[j] by {
                assert(entries_view(copied@)[j] == entry_view(copied@[j]));
                assert(entries_view(entries@)[j] == entry_view(entries@[j]));
                if j < i {
                    assert(entries_view(before)[j] == entries_view(entries@).take(i as int)[j]);
                    assert(entries_view(before)[j] == entry_view(before[j]));
                    assert(copied@[j] == before[j]);
                }
            }
            assert(entries_view(copied@) =~= entries_view(entries@).take(i as int + 1));
        }
        i = i + 1;
    }
    proof {
        assert(entries_view(entries@).take(entries@.len() as int) =~= entries_view(entries@));
    }
    RetrogradeValues { entries: copied }
}

impl RetrogradeGraph {
    /// Propagates from the graph's own terminals and seeds.
    pub fn solve(&self) -> (r: (RetrogradeValues, RetrogradeStats))
        requires
            solve_problem(self@, Seq::empty()) is None,
        ensures
            solution_ok(self@, Seq::empty(), r.0@, r.1),
    {
        let empty = RetrogradeValues::new();
        proof {
            assert(empty@ =~= Seq::<(Seq<char>, RetrogradeValue)>::empty());
        }
        match self.solve_from_seed(&empty) {
            Ok(result) => result,
            Err(_) => {
                proof {
                    assert(false);
                }
                (RetrogradeValues::new(), RetrogradeStats::default())
            },
        }
    }

    /// The per-action values of every node that labels its edges, in key
    /// order.
    pub fn action_values(&self, values: &RetrogradeValues) -> (r: Vec<(String, Vec<RetrogradeActionValue>)>)
        ensures
            forall|q: int| 0 <= q < r@.len() ==> exists|i: int|
                0 <= i < self@.len() && self@[i].key == (#[trigger] r@[q]).0@ && self@[i].actions.len() > 0
                    && r@[q].1@.len() == self@[i].actions.len() && forall|e: int|
                    0 <= e < r@[q].1@.len() ==> (#[trigger] r@[q].1@[e]).action@ == self@[i].actions[e].0
                        && (r@[q].1@[e].outcome, r@[q].1@[e].distance) == edge_value(values@, self@[i].actions[e].1),
        forall|i: int| 0 <= i < self@.len() && (#[trigger] self@[i]).actions.len() > 0 ==> exists|q: int|
            0 <= q < r@.len() && (#[trigger] r@[q]).0@ == self@[i].key,
        r@.len() <= self@.len(),
    {
        proof {
            use_type_invariant(self);
        }
        let nodes = &self.nodes;
        let mut rows: Vec<(String, Vec<RetrogradeActionValue>)> = Vec::new();
        let mut i: usize = 0;
        while i < nodes.len()
            invariant
                i <= nodes@.len(),
                self@ == nodes@.map_values(|node: RetrogradeNode| node@),
                forall|q: int| 0 <= q < rows@.len() ==> exists|k: int|
                    0 <= k < self@.len() && self@[k].key == (#[trigger] rows@[q]).0@ && self@[k].actions.len() > 0
                        && rows@[q].1@.len() == self@[k].actions.len() && forall|e: int|
                        0 <= e < rows@[q].1@.len() ==> (#[trigger] rows@[q].1@[e]).action@ == self@[k].actions[e].0
                            && (rows@[q].1@[e].outcome, rows@[q].1@[e].distance) == edge_value(values@, self@[k].actions[e].1),
            forall|k: int| 0 <= k < i && (#[trigger] self@[k]).actions.len() > 0 ==> exists|q: int|
                0 <= q < rows@.len() && (#[trigger] rows@[q]).0@ == self@[k].key,
            rows@.len() <= i,
            decreases nodes@.len() - i,
        {
            let node = &nodes[i];
            let ghost before = rows@;
            proof {
                assert(self@[i as int] == node@);
            }
            if node.actions.len() > 0 {
                let mut labels: Vec<RetrogradeActionValue> = Vec::new();
                let mut e: usize = 0;
                while e < node.actions.len()
                    invariant
                        e <= node.actions@.len(),
                        self@[i as int] == node@,
                        labels@.len() == e,
                        forall|f: int|
                            0 <= f < e ==> (#[trigger] labels@[f]).action@ == node@.actions[f].0
                                && (labels@[f].outcome, labels@[f].distance) == edge_value(values@, node@.actions[f].1),
                    decreases node.actions@.len() - e,
                {
                    let edge = &node.actions[e];
                    let (outcome, distance) = match values.get(edge.child.as_str()) {
                        Some(child) => (
                            child.outcome.negate(),
                            match child.distance {
                                Some(d) => Some(
                                    if d == u16::MAX {
                                        d
                                    } else {
                                        d + 1
                                    },
                                ),
                                None => None,
                            },
                        ),
                        None => (GroundTruthOutcome::Unknown, None),
                    };
                    labels.push(RetrogradeActionValue { action: edge.action.clone(), outcome, distance });
                    proof {
                        assert(node@.actions[e as int] == edge@);
                    }
                    e = e + 1;
                }
                rows.push((node.key.clone(), labels));
                proof {
                    let q = rows@.len() - 1;
                    assert(rows@[q].0@ == self@[i as int].key);
                }
            }
            proof {
                assert forall|k: int| 0 <= k < i + 1 && (#[trigger] self@[k]).actions.len() > 0 implies exists|q: int|
                    0 <= q < rows@.len() && (#[trigger] rows@[q]).0@ == self@[k].key by {
                    if k < i {
                        let q = choose|q: int| 0 <= q < before.len() && (#[trigger] before[q]).0@ == self@[k].key;
                        assert(rows@[q] == before[q]);
                    } else {
                        assert(rows@[rows@.len() - 1].0@ == self@[k].key);
                    }
                }
            }
            i = i + 1;
        }
        rows
    }

    /// The persisted form of a solve's values and counts.
    pub fn output(&self, values: &RetrogradeValues, stats: RetrogradeStats) -> (r: RetrogradeOutput)
        ensures
            r.schema_version == 1,
            r.table_family@ == "pathagon-retrograde-wdl-v1"@,
            r.values@ == values@,
            r.stats == stats,
    {
        RetrogradeOutput {
            schema_version: 1,
            table_family: String::from_str("pathagon-retrograde-wdl-v1"),
            values: copy_values(values),
            stats,
            action_values: self.action_values(values),
        }
    }

    /// A resumable checkpoint of the values proven so far.
    pub fn checkpoint(&self, rounds: usize, stats: RetrogradeStats, values: &RetrogradeValues) -> (r: FrontierCheckpoint)
        ensures
            r.schema_version == 1,
            r.table_family@ == "pathagon-retrograde-frontier-v1"@,
            r.input_nodes == self@.len(),
            r.rounds == rounds,
            r.solved == stats.solved,
            r.draws == stats.draws,
            r.unknown == stats.unknown,
            r.complete_graph == forall|i: int| 0 <= i < self@.len() ==> (#[trigger] self@[i]).complete,
            r.values@ == values@,
    {
        proof {
            use_type_invariant(self);
        }
        let nodes = &self.nodes;
        let mut complete = true;
        let mut i: usize = 0;
        while i < nodes.len()
            invariant
                i <= nodes@.len(),
                self@ == nodes@.map_values(|node: RetrogradeNode| node@),
                complete == forall|j: int| 0 <= j < i ==> (#[trigger] self@[j]).complete,
            decreases nodes@.len() - i,
        {
            proof {
                assert(self@[i as int] == nodes@[i as int]@);
            }
            complete = complete && nodes[i].complete;
            i = i + 1;
        }
        FrontierCheckpoint {
            schema_version: 1,
            table_family: String::from_str("pathagon-retrograde-frontier-v1"),
            input_nodes: self.len(),
            input_edges: self.edge_count(),
            rounds,
            solved: stats.solved,
            draws: stats.draws,
            unknown: stats.unknown,
            complete_graph: complete,
            values: copy_values(values),
        }
    }
}

/// The FNV-1a hash of the first `n` bytes.
pub open spec fn fnv_hash(bytes: Seq<u8>, n: nat) -> u64
    decreases n,
{
    if n == 0 {
        0xcbf29ce484222325u64
    } else {
        vstd::wrapping::u64_specs::wrapping_mul(fnv_hash(bytes, (n - 1) as nat) ^ (bytes[n - 1] as u64), 0x100000001b3u64)
    }
}

/// The shard a key belongs to: its FNV-1a hash modulo the shard count, the
/// same in every process and on every platform.
pub fn stable_shard(key: &[u8], shard_count: usize) -> (r: usize)
    requires
        shard_count > 0,
    ensures
        r as int == fnv_hash(key@, key@.len()) as int % shard_count as int,
        r < shard_count,
{
    let mut hash: u64 = 0xcbf29ce484222325u64;
    let mut i: usize = 0;
    while i < key.len()
        invariant
            i <= key@.len(),
            hash == fnv_hash(key@, i as nat),
        decreases key@.len() - i,
    {
        hash = hash ^ (key[i] as u64);
        hash = hash.wrapping_mul(0x100000001b3u64);
        i = i + 1;
    }
    (hash % (shard_count as u64)) as usize
}


/// The shard that `key` belongs to among `count` shards.
pub open spec fn shard_of(key: Seq<char>, count: nat) -> int {
    fnv_hash(key_bytes(key), key_bytes(key).len()) as int % count as int
}

/// Whether an entry belongs to shard `index` of `count`.
pub open spec fn in_shard(count: nat, index: int) -> spec_fn((Seq<char>, RetrogradeValue)) -> bool {
    |entry: (Seq<char>, RetrogradeValue)| shard_of(entry.0, count) == index
}

/// The entries of `values` that belong to shard `index`, in key order.
pub fn shard_entries(values: &RetrogradeValues, shard_count: usize, index: usize) -> (r: Vec<(String, RetrogradeValue)>)
    requires
        shard_count > 0,
    ensures
        entries_view(r@) == values@.filter(in_shard(shard_count as nat, index as int)),
{
    let entries = values.entries();
    let ghost all = entries_view(entries@);
    let ghost pred = in_shard(shard_count as nat, index as int);
    let mut shard: Vec<(String, RetrogradeValue)> = Vec::new();
    let mut i: usize = 0;
    while i < entries.len()
        invariant
            i <= entries@.len(),
            all == entries_view(entries@),
            all.len() == entries@.len(),
            pred == in_shard(shard_count as nat, index as int),
            shard_count > 0,
            entries_view(shard@) == all.take(i as int).filter(pred),
        decreases entries@.len() - i,
    {
        let key = &entries[i].0;
        let value = entries[i].1;
        let bucket = stable_shard(key.as_str().as_bytes(), shard_count);
        proof {
            assert(all.take(i as int + 1) =~= all.take(i as int).push(all[i as int]));
            all.take(i as int).lemma_filter_push(all[i as int], pred);
            assert(all[i as int] == entry_view(entries@[i as int]));
        }
        if bucket == index {
            let copy = key.clone();
            shard.push((copy, value));
            proof {
                assert(entries_view(shard@) =~= entries_view(shard@.drop_last()).push(all[i as int]));
            }
        }
        i = i + 1;
    }
    proof {
        assert(all.take(entries@.len() as int) =~= all);
    }
    shard
}

/// `values` split into `shard_count` shards by `stable_shard`, each in key
/// order.
pub fn shard_values(values: &RetrogradeValues, shard_count: usize) -> (r: Vec<Vec<(String, RetrogradeValue)>>)
    requires
        shard_count > 0,
    ensures
        r@.len() == shard_count,
        forall|i: int| 0 <= i < shard_count ==> entries_view((#[trigger] r@[i])@) == values@.filter(
            in_shard(shard_count as nat, i),
        ),
{
    let mut shards: Vec<Vec<(String, RetrogradeValue)>> = Vec::new();
    let mut index: usize = 0;
    while index < shard_count
        invariant
            index <= shard_count,
            shard_count > 0,
            shards@.len() == index,
            forall|i: int| 0 <= i < index ==> entries_view((#[trigger] shards@[i])@) == values@.filter(
                in_shard(shard_count as nat, i),
            ),
        decreases shard_count - index,
    {
        let shard = shard_entries(values, shard_count, index);
        shards.push(shard);
        index = index + 1;
    }
    shards
}

/// The lookup that answers `value` for `key` and defers to `known` elsewhere.
pub open spec fn with_value(
    known: spec_fn(Seq<char>) -> Option<RetrogradeValue>,
    key: Seq<char>,
    value: RetrogradeValue,
) -> spec_fn(Seq<char>) -> Option<RetrogradeValue> {
    |k: Seq<char>| if k == key {
        Some(value)
    } else {
        known(k)
    }
}

/// The lookup of a value table.
pub open spec fn lookup_of(values: Seq<(Seq<char>, RetrogradeValue)>) -> spec_fn(Seq<char>) -> Option<RetrogradeValue> {
    |k: Seq<char>| value_of(values, k)
}

/// The values after merging `entries` of shard `index` of `count` over
/// `known`, or the first problem: a key outside its shard, or a value that
/// contradicts one already merged.
#[verifier::opaque]
pub open spec fn merge_outcome(
    known: spec_fn(Seq<char>) -> Option<RetrogradeValue>,
    entries: Seq<(Seq<char>, RetrogradeValue)>,
    index: int,
    count: nat,
) -> Result<spec_fn(Seq<char>) -> Option<RetrogradeValue>, Seq<char>>
    decreases entries.len(),
{
    if entries.len() == 0 {
        Ok(known)
    } else {
        let (key, value) = entries[0];
        if shard_of(key, count) != index {
            Err("key "@ + key + " is in the wrong shard"@)
        } else if known(key) matches Some(previous) && previous != value {
            Err("contradictory merged value for key "@ + key)
        } else {
            merge_outcome(with_value(known, key, value), entries.drop_first(), index, count)
        }
    }
}

proof fn lemma_merge_step(
    known: spec_fn(Seq<char>) -> Option<RetrogradeValue>,
    entries: Seq<(Seq<char>, RetrogradeValue)>,
    index: int,
    count: nat,
)
    requires
        entries.len() > 0,
    ensures
        ({
            let (key, value) = entries[0];
            merge_outcome(known, entries, index, count) == if shard_of(key, count) != index {
                Err("key "@ + key + " is in the wrong shard"@)
            } else if known(key) matches Some(previous) && previous != value {
                Err("contradictory merged value for key "@ + key)
            } else {
                merge_outcome(with_value(known, key, value), entries.drop_first(), index, count)
            }
        }),
{
    reveal(merge_outcome);
}

proof fn lemma_merge_done(
    known: spec_fn(Seq<char>) -> Option<RetrogradeValue>,
    entries: Seq<(Seq<char>, RetrogradeValue)>,
    index: int,
    count: nat,
)
    requires
        entries.len() == 0,
    ensures
        merge_outcome(known, entries, index, count) == Ok::<spec_fn(Seq<char>) -> Option<RetrogradeValue>, Seq<char>>(known),
{
    reveal(merge_outcome);
}

fn prefixed_key(prefix: &str, key: &String) -> (r: String)
    ensures
        r@ == prefix@ + key@,
{
    String::from_str(prefix).concat(key.as_str())
}

fn shard_message(prefix: &str, key: &String, suffix: &str) -> (r: String)
    ensures
        r@ == prefix@ + key@ + suffix@,
{
    String::from_str(prefix).concat(key.as_str()).concat(suffix)
}

/// Merges the entries read from shard `index` of `shard_count` into
/// `merged`, refusing a key that sits in another shard or a value that
/// contradicts one merged before.
pub fn merge_shard(
    merged: &mut RetrogradeValues,
    index: usize,
    shard_count: usize,
    entries: &Vec<(String, RetrogradeValue)>,
) -> (r: Result<(), String>)
    requires
        shard_count > 0,
    ensures
        match merge_outcome(lookup_of(old(merged)@), entries_view(entries@), index as int, shard_count as nat) {
            Ok(known) => r is Ok && forall|k: Seq<char>| #[trigger] value_of(final(merged)@, k) == known(k),
            Err(e) => r matches Err(m) && m@ == e,
        },
{
    let ghost all = entries_view(entries@);
    let ghost goal = merge_outcome(lookup_of(merged@), all, index as int, shard_count as nat);
    proof {
        assert(all.skip(0) =~= all);
    }
    let mut i: usize = 0;
    while i < entries.len()
        invariant
            i <= entries@.len(),
            shard_count > 0,
            all == entries_view(entries@),
            all.len() == entries@.len(),
            goal == merge_outcome(lookup_of(merged@), all.skip(i as int), index as int, shard_count as nat),
            goal == merge_outcome(lookup_of(old(merged)@), entries_view(entries@), index as int, shard_count as nat),
        decreases entries@.len() - i,
    {
        let key = &entries[i].0;
        let value = entries[i].1;
        let ghost rest = all.skip(i as int);
        let ghost known = lookup_of(merged@);
        proof {
            assert(rest[0] == (key@, value));
            assert(rest.drop_first() =~= all.skip(i as int + 1));
            lemma_merge_step(known, rest, index as int, shard_count as nat);
        }
        let text = key.as_str();
        let bucket = stable_shard(text.as_bytes(), shard_count);
        proof {
            assert(text@ == key@);
            assert(bucket as int == shard_of(key@, shard_count as nat));
        }
        if bucket != index {
            let message = shard_message("key ", key, " is in the wrong shard");
            return Err(message);
        }
        match merged.get(key.as_str()) {
            Some(previous) => {
                if previous != value {
                    let message = prefixed_key("contradictory merged value for key ", key);
                    proof {
                        assert(known(key@) == Some(previous));
                    }
                    return Err(message);
                }
            },
            None => {},
        }
        proof {
            assert(goal == merge_outcome(with_value(known, key@, value), all.skip(i as int + 1), index as int, shard_count as nat));
        }
        let copy = key.clone();
        merged.insert(copy, value);
        proof {
            assert(lookup_of(merged@) =~= with_value(known, key@, value));
        }
        i = i + 1;
    }
    proof {
        assert(all.skip(entries@.len() as int).len() == 0);
        lemma_merge_done(lookup_of(merged@), all.skip(entries@.len() as int), index as int, shard_count as nat);
    }
    Ok(())
}


// ---------------------------------------------------------------------------
// Shards merge back
// ---------------------------------------------------------------------------

/// No key occurs twice.
pub open spec fn distinct_keys(entries: Seq<(Seq<char>, RetrogradeValue)>) -> bool {
    forall|i: int, j: int| 0 <= i < j < entries.len() ==> (#[trigger] entries[i]).0 != (#[trigger] entries[j]).0
}

/// `known`, with the values of `entries` laid over it.
pub open spec fn overlay(
    known: spec_fn(Seq<char>) -> Option<RetrogradeValue>,
    entries: Seq<(Seq<char>, RetrogradeValue)>,
) -> spec_fn(Seq<char>) -> Option<RetrogradeValue> {
    |k: Seq<char>| if value_of(entries, k) is Some {
        value_of(entries, k)
    } else {
        known(k)
    }
}

/// Merging shards `0..n` of `values`, each as `shard_values` writes it, in
/// order, from an empty table.
pub open spec fn merge_shards(values: Seq<(Seq<char>, RetrogradeValue)>, count: nat, n: nat) -> Result<
    spec_fn(Seq<char>) -> Option<RetrogradeValue>,
    Seq<char>,
>
    decreases n,
{
    if n == 0 {
        Ok(|k: Seq<char>| None::<RetrogradeValue>)
    } else {
        match merge_shards(values, count, (n - 1) as nat) {
            Ok(known) => merge_outcome(known, values.filter(in_shard(count, n - 1)), n - 1, count),
            Err(e) => Err(e),
        }
    }
}

proof fn lemma_value_unique(entries: Seq<(Seq<char>, RetrogradeValue)>, j: int)
    requires
        distinct_keys(entries),
        0 <= j < entries.len(),
    ensures
        value_of(entries, entries[j].0) == Some(entries[j].1),
{
    let i = choose|i: int| 0 <= i < entries.len() && (#[trigger] entries[i]).0 == entries[j].0;
    if i != j {
        if i < j {
            assert(entries[i].0 != entries[j].0);
        } else {
            assert(entries[j].0 != entries[i].0);
        }
    }
}

proof fn lemma_ordered_distinct(entries: Seq<(Seq<char>, RetrogradeValue)>)
    requires
        entries_ordered(entries),
    ensures
        distinct_keys(entries),
{
    assert forall|i: int, j: int| 0 <= i < j < entries.len() implies (#[trigger] entries[i]).0 != (#[trigger] entries[j]).0 by {
        assert(key_less(entries[i].0, entries[j].0));
        lemma_key_order(entries[i].0, entries[j].0, entries[j].0);
    }
}

/// A filter keeps distinct keys and only entries of the original.
proof fn lemma_filter_distinct(
    entries: Seq<(Seq<char>, RetrogradeValue)>,
    pred: spec_fn((Seq<char>, RetrogradeValue)) -> bool,
)
    requires
        distinct_keys(entries),
    ensures
        distinct_keys(entries.filter(pred)),
        forall|i: int| 0 <= i < entries.filter(pred).len() ==> entries.contains(#[trigger] entries.filter(pred)[i]),
    decreases entries.len(),
{
    reveal(Seq::filter);
    if entries.len() > 0 {
        let rest = entries.drop_last();
        assert(distinct_keys(rest));
        lemma_filter_distinct(rest, pred);
        let out = entries.filter(pred);
        let sub = rest.filter(pred);
        assert forall|i: int| 0 <= i < out.len() implies entries.contains(#[trigger] out[i]) by {
            if i < sub.len() {
                assert(out[i] == sub[i]);
                assert(rest.contains(sub[i]));
                let k = choose|k: int| 0 <= k < rest.len() && rest[k] == sub[i];
                assert(entries[k] == out[i]);
            } else {
                assert(out[i] == entries.last());
                assert(entries[entries.len() - 1] == out[i]);
            }
        }
        if pred(entries.last()) {
            assert forall|i: int, j: int| 0 <= i < j < out.len() implies (#[trigger] out[i]).0 != (#[trigger] out[j]).0 by {
                if j == out.len() - 1 {
                    assert(rest.contains(sub[i]));
                    let k = choose|k: int| 0 <= k < rest.len() && rest[k] == sub[i];
                    assert(entries[k].0 != entries[entries.len() - 1].0);
                } else {
                    assert(out[i] == sub[i] && out[j] == sub[j]);
                }
            }
        }
    }
}

/// Merging a shard whose entries all belong to it, with distinct keys that
/// the table does not hold yet, lays them over the table.
proof fn lemma_merge_fresh(
    known: spec_fn(Seq<char>) -> Option<RetrogradeValue>,
    entries: Seq<(Seq<char>, RetrogradeValue)>,
    index: int,
    count: nat,
)
    requires
        distinct_keys(entries),
        forall|j: int| 0 <= j < entries.len() ==> shard_of((#[trigger] entries[j]).0, count) == index,
        forall|j: int| 0 <= j < entries.len() ==> known((#[trigger] entries[j]).0) is None,
    ensures
        merge_outcome(known, entries, index, count) == Ok::<spec_fn(Seq<char>) -> Option<RetrogradeValue>, Seq<char>>(overlay(known, entries)),
    decreases entries.len(),
{
    reveal(merge_outcome);
    if entries.len() == 0 {
        assert(overlay(known, entries) =~= known);
    } else {
        let (key, value) = entries[0];
        let rest = entries.drop_first();
        let next = with_value(known, key, value);
        assert(shard_of(entries[0].0, count) == index);
        assert(known(entries[0].0) is None);
        assert(distinct_keys(rest)) by {
            assert forall|i: int, j: int| 0 <= i < j < rest.len() implies (#[trigger] rest[i]).0 != (#[trigger] rest[j]).0 by {
                assert(rest[i] == entries[i + 1] && rest[j] == entries[j + 1]);
            }
        }
        assert forall|j: int| 0 <= j < rest.len() implies shard_of((#[trigger] rest[j]).0, count) == index by {
            assert(rest[j] == entries[j + 1]);
        }
        assert forall|j: int| 0 <= j < rest.len() implies next((#[trigger] rest[j]).0) is None by {
            assert(rest[j] == entries[j + 1]);
            assert(entries[0].0 != entries[j + 1].0);
        }
        lemma_merge_fresh(next, rest, index, count);
        assert(overlay(next, rest) =~= overlay(known, entries)) by {
            assert forall|k: Seq<char>| #[trigger] overlay(next, rest)(k) == overlay(known, entries)(k) by {
                if exists|j: int| 0 <= j < rest.len() && (#[trigger] rest[j]).0 == k {
                    let j = choose|j: int| 0 <= j < rest.len() && (#[trigger] rest[j]).0 == k;
                    lemma_value_unique(rest, j);
                    assert(entries[j + 1] == rest[j]);
                    lemma_value_unique(entries, j + 1);
                } else if k == key {
                    lemma_value_unique(entries, 0);
                    assert(value_of(rest, k) is None);
                } else {
                    assert(value_of(rest, k) is None);
                    if value_of(entries, k) is Some {
                        let j = choose|j: int| 0 <= j < entries.len() && (#[trigger] entries[j]).0 == k;
                        assert(j != 0);
                        assert(rest[j - 1] == entries[j]);
                    }
                }
            }
        }
    }
}

/// The shards of a value table, merged in order from an empty table,
/// hold exactly the table's values for the keys of the shards merged so far.
proof fn lemma_merge_shards(values: Seq<(Seq<char>, RetrogradeValue)>, count: nat, n: nat)
    requires
        entries_ordered(values),
        count > 0,
        n <= count,
    ensures
        merge_shards(values, count, n) matches Ok(known) && forall|k: Seq<char>| #[trigger] known(k) == if shard_of(k, count) < n {
            value_of(values, k)
        } else {
            None
        },
    decreases n,
{
    lemma_ordered_distinct(values);
    if n > 0 {
        lemma_merge_shards(values, count, (n - 1) as nat);
        let known = merge_shards(values, count, (n - 1) as nat)->Ok_0;
        let pred = in_shard(count, n - 1);
        let shard = values.filter(pred);
        values.filter_lemma(pred);
        lemma_filter_distinct(values, pred);
        assert forall|j: int| 0 <= j < shard.len() implies shard_of((#[trigger] shard[j]).0, count) == n - 1 by {
            assert(pred(shard[j]));
        }
        assert forall|j: int| 0 <= j < shard.len() implies known((#[trigger] shard[j]).0) is None by {
            assert(pred(shard[j]));
        }
        lemma_merge_fresh(known, shard, n - 1, count);
        let merged = overlay(known, shard);
        assert forall|k: Seq<char>| #[trigger] merged(k) == if shard_of(k, count) < n {
            value_of(values, k)
        } else {
            None
        } by {
            if value_of(shard, k) is Some {
                let j = choose|j: int| 0 <= j < shard.len() && (#[trigger] shard[j]).0 == k;
                assert(pred(shard[j]));
                lemma_value_unique(shard, j);
                assert(values.contains(shard[j]));
                let i = choose|i: int| 0 <= i < values.len() && values[i] == shard[j];
                lemma_value_unique(values, i);
            } else if shard_of(k, count) == n - 1 && value_of(values, k) is Some {
                let i = choose|i: int| 0 <= i < values.len() && (#[trigger] values[i]).0 == k;
                assert(pred(values[i]));
                assert(shard.contains(values[i]));
                let j = choose|j: int| 0 <= j < shard.len() && shard[j] == values[i];
                assert(shard[j].0 == k);
            }
        }
    } else {
        assert(merge_shards(values, count, 0) == Ok::<spec_fn(Seq<char>) -> Option<RetrogradeValue>, Seq<char>>(|k: Seq<char>| None::<RetrogradeValue>));
    }
}

/// Value shards merge back: the shards that `shard_values` writes from a
/// table (whose entries, as `entries` states, are in key order), merged
/// shard by shard in order from an empty table, are all accepted and give
/// back exactly the table's values.
pub proof fn law_shards_merge_back(values: Seq<(Seq<char>, RetrogradeValue)>, count: nat)
    requires
        entries_ordered(values),
        count > 0,
    ensures
        merge_shards(values, count, count) matches Ok(known) && forall|k: Seq<char>| #[trigger] known(k) == value_of(values, k),
{
    lemma_merge_shards(values, count, count);
    let known = merge_shards(values, count, count)->Ok_0;
    assert forall|k: Seq<char>| #[trigger] known(k) == value_of(values, k) by {
        let h = fnv_hash(key_bytes(k), key_bytes(k).len()) as int;
        assert(0 <= h % (count as int) < count) by (nonlinear_arith)
            requires
                count > 0,
                h >= 0,
        ;
    }
}

} // verus!
