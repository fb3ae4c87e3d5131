//! The sidecar action book of a golden table: per canonical key, the exact
//! value of the row and sparse per-action results. An action that a row
//! omits is unknown unless the row says its optimal-action set is complete.

use vstd::prelude::*;
use vstd::string::StringSliceAdditionalSpecFns;

use crate::golden::{
    action_on_board, canonical_key, canonical_key_of, codec_size, inverse_of, inverse_symmetry,
    key_bytes_for_board_size, key_len, key_len_of, key_less, lemma_lex_less_irreflexive,
    lemma_lex_less_transitive, lex_less, markers_on_board, orientation_key, pack_transformed,
    transform_action, transformed_action, GoldenOutcome,
};
use crate::rules::{contains_action, Action, GameState};
use crate::contract::same_text;
use crate::text::{decimal_string_u64, decimal_text};
use vstd::utf8::encode_utf8;

verus! {

/// A sparse action label. `outcome: None` is an explicitly encoded unknown
/// result.
#[derive(Clone, Copy, Debug, PartialEq, Eq, Structural)]
pub struct GoldenActionValue {
    pub action: Action,
    pub outcome: Option<GoldenOutcome>,
    pub distance: Option<u16>,
}

/// The exact value of a row, with whether its optimal-action set is complete.
#[derive(Clone, Copy, Debug, PartialEq, Eq, Structural)]
pub struct GoldenRowValue {
    pub outcome: GoldenOutcome,
    pub distance: Option<u16>,
    pub optimal_actions_complete: bool,
}

// ---------------------------------------------------------------------------
// Action codes and tokens
// ---------------------------------------------------------------------------

/// The action that a numeric code names on a `board_size` board: the first
/// `cells` codes place, the rest relocate, source-major.
pub open spec fn code_action(code: nat, board_size: u8) -> Result<Action, Seq<char>> {
    let cells = board_size as nat * board_size as nat;
    if code < cells {
        Ok(Action::Place { to: code as u8 })
    } else {
        let relocation = (code - cells) as nat;
        let from = relocation / cells;
        let to = relocation % cells;
        if from >= cells || to >= cells {
            Err("golden action code "@ + decimal_text(code) + " is outside the board"@)
        } else {
            Ok(Action::Relocate { from: from as u8, to: to as u8 })
        }
    }
}

/// Decode a numeric action code.
pub fn action_from_code(code: u16, board_size: u8) -> (r: Result<Action, String>)
    requires
        1 <= board_size,
    ensures
        match r {
            Ok(action) => code_action(code as nat, board_size) == Ok::<Action, Seq<char>>(action),
            Err(e) => code_action(code as nat, board_size) == Err::<Action, Seq<char>>(e@),
        },
        r matches Ok(action) ==> action_on_board(action, board_size as int),
{
    proof {
        assert(1 <= board_size as nat * board_size as nat <= 65025) by (nonlinear_arith)
            requires
                1 <= board_size <= 255,
        ;
    }
    let cells = (board_size as usize) * (board_size as usize);
    let code = code as usize;
    if code < cells {
        Ok(Action::Place { to: code as u8 })
    } else {
        let relocation = code - cells;
        let from = relocation / cells;
        let to = relocation % cells;
        if from >= cells || to >= cells {
            return Err(
                String::from_str("golden action code ").concat(
                    decimal_string_u64(code as u64).as_str(),
                ).concat(" is outside the board"),
            );
        }
        Ok(Action::Relocate { from: from as u8, to: to as u8 })
    }
}

/// Position of a byte in the 64-character token alphabet
/// `0-9`, `A-Z`, `a-z`, `-`, `_`.
pub open spec fn token_digit(byte: u8) -> Option<nat> {
    if 48 <= byte <= 57 {
        Some((byte - 48) as nat)
    } else if 65 <= byte <= 90 {
        Some((byte - 65 + 10) as nat)
    } else if 97 <= byte <= 122 {
        Some((byte - 97 + 36) as nat)
    } else if byte == 45 {
        Some(62)
    } else if byte == 95 {
        Some(63)
    } else {
        None
    }
}

fn token_digit_of(byte: u8) -> (r: Option<u16>)
    ensures
        match token_digit(byte) {
            Some(d) => r == Some(d as u16),
            None => r is None,
        },
        r matches Some(d) ==> d < 64,
{
    if 48 <= byte && byte <= 57 {
        Some((byte - 48) as u16)
    } else if 65 <= byte && byte <= 90 {
        Some((byte - 65 + 10) as u16)
    } else if 97 <= byte && byte <= 122 {
        Some((byte - 97 + 36) as u16)
    } else if byte == 45 {
        Some(62)
    } else if byte == 95 {
        Some(63)
    } else {
        None
    }
}

/// std's debug spelling of a string: the text quoted, with escapes.
pub uninterp spec fn debug_quoted(text: Seq<char>) -> Seq<char>;

/// `format!("{text:?}")`, std's `Debug` formatting of a string slice. The
/// contract names the result and says nothing of its escaping rules.
#[verifier::external_body]
fn debug_text(text: &str) -> (r: String)
    ensures
        r@ == debug_quoted(text@),
{
    format!("{text:?}")
}

/// What a two-character action token decodes to.
pub open spec fn token_action(text: Seq<char>, bytes: Seq<u8>, board_size: u8) -> Result<
    Action,
    Seq<char>,
> {
    if bytes.len() != 2 {
        Err("golden action token must contain exactly two characters"@)
    } else if token_digit(bytes[0]) is None || token_digit(bytes[1]) is None {
        Err("invalid golden action token "@ + debug_quoted(text))
    } else {
        code_action(token_digit(bytes[0]).unwrap() * 64 + token_digit(bytes[1]).unwrap(), board_size)
    }
}

/// Decode a two-character action token: two base-64 digits, high first.
pub fn decode_action(token: &str, board_size: u8) -> (r: Result<Action, String>)
    requires
        1 <= board_size,
    ensures
        match r {
            Ok(action) => token_action(token@, token.spec_bytes(), board_size) == Ok::<
                Action,
                Seq<char>,
            >(action),
            Err(e) => token_action(token@, token.spec_bytes(), board_size) == Err::<
                Action,
                Seq<char>,
            >(e@),
        },
        r matches Ok(action) ==> action_on_board(action, board_size as int),
{
    let bytes = token.as_bytes();
    if bytes.len() != 2 {
        return Err(String::from_str("golden action token must contain exactly two characters"));
    }
    let first = token_digit_of(bytes[0]);
    let second = token_digit_of(bytes[1]);
    match (first, second) {
        (Some(high), Some(low)) => action_from_code(high * 64 + low, board_size),
        _ => Err(String::from_str("invalid golden action token ").concat(debug_text(token).as_str())),
    }
}

/// The value of a hexadecimal digit, either case.
pub open spec fn hex_value(byte: u8) -> Option<u8> {
    if 48 <= byte <= 57 {
        Some((byte - 48) as u8)
    } else if 97 <= byte <= 102 {
        Some((byte - 97 + 10) as u8)
    } else if 65 <= byte <= 70 {
        Some((byte - 65 + 10) as u8)
    } else {
        None
    }
}

/// Read one hexadecimal digit.
pub fn hex_digit(value: u8) -> (r: Result<u8, String>)
    ensures
        match hex_value(value) {
            Some(v) => r == Ok::<u8, String>(v),
            None => r matches Err(e) && e@ == "golden key contains a non-hex digit"@,
        },
        r matches Ok(v) ==> v < 16,
{
    if 48 <= value && value <= 57 {
        Ok(value - 48)
    } else if 97 <= value && value <= 102 {
        Ok(value - 97 + 10)
    } else if 65 <= value && value <= 70 {
        Ok(value - 65 + 10)
    } else {
        Err(String::from_str("golden key contains a non-hex digit"))
    }
}

/// The bytes that a hexadecimal string spells, two digits a byte, high digit
/// first.
pub open spec fn hex_decoded(bytes: Seq<u8>) -> Result<Seq<u8>, Seq<char>> {
    if bytes.len() % 2 != 0 {
        Err("golden key hex must have an even length"@)
    } else if exists|i: int| 0 <= i < bytes.len() && #[trigger] hex_value(bytes[i]) is None {
        Err("golden key contains a non-hex digit"@)
    } else {
        Ok(
            Seq::new(
                bytes.len() / 2,
                |i: int|
                    (hex_value(bytes[2 * i]).unwrap() * 16 + hex_value(bytes[2 * i + 1]).unwrap()) as u8,
            ),
        )
    }
}

/// Decode a hexadecimal key.
pub fn decode_hex(value: &str) -> (r: Result<Vec<u8>, String>)
    ensures
        match r {
            Ok(bytes) => hex_decoded(value.spec_bytes()) == Ok::<Seq<u8>, Seq<char>>(bytes@),
            Err(e) => hex_decoded(value.spec_bytes()) == Err::<Seq<u8>, Seq<char>>(e@),
        },
{
    let chars = value.as_bytes();
    if chars.len() % 2 != 0 {
        return Err(String::from_str("golden key hex must have an even length"));
    }
    let mut bytes: Vec<u8> = Vec::new();
    let mut i: usize = 0;
    while i < chars.len() / 2
        invariant
            chars@ == value.spec_bytes(),
            chars.len() % 2 == 0,
            i <= chars.len() / 2,
            bytes.len() == i,
            forall|j: int| 0 <= j < 2 * i ==> #[trigger] hex_value(chars@[j]) is Some,
            forall|j: int|
                0 <= j < i ==> bytes@[j] == (hex_value(chars@[2 * j]).unwrap() * 16 + hex_value(
                    chars@[2 * j + 1],
                ).unwrap()) as u8,
        decreases chars.len() / 2 - i,
    {
        let high = match hex_digit(chars[2 * i]) {
            Ok(v) => v,
            Err(e) => {
                return Err(e);
            },
        };
        let low = match hex_digit(chars[2 * i + 1]) {
            Ok(v) => v,
            Err(e) => {
                return Err(e);
            },
        };
        bytes.push(high * 16 + low);
        i = i + 1;
        proof {
            assert forall|j: int| 0 <= j < 2 * i implies #[trigger] hex_value(chars@[j]) is Some by {
                if j >= 2 * i - 2 {
                    assert(j == 2 * i - 2 || j == 2 * i - 1);
                }
            }
        }
    }
    proof {
        assert(!exists|j: int| 0 <= j < chars@.len() && #[trigger] hex_value(chars@[j]) is None);
        assert(bytes@ =~= Seq::new(
            chars@.len() / 2,
            |j: int|
                (hex_value(chars@[2 * j]).unwrap() * 16 + hex_value(chars@[2 * j + 1]).unwrap()) as u8,
        ));
    }
    Ok(bytes)
}

// ---------------------------------------------------------------------------
// The book
// ---------------------------------------------------------------------------

/// One row of a book as a value: its canonical key, its action labels (none
/// when the row never listed one), and its exact row value if known.
pub struct BookRowView {
    pub key: Seq<u8>,
    pub values: Option<Seq<GoldenActionValue>>,
    pub row: Option<GoldenRowValue>,
}

struct BookEntry {
    key: Vec<u8>,
    values: Option<Vec<GoldenActionValue>>,
    row: Option<GoldenRowValue>,
}

impl BookEntry {
    spec fn view(&self) -> BookRowView {
        BookRowView {
            key: self.key@,
            values: match self.values {
                Some(values) => Some(values@),
                None => None,
            },
            row: self.row,
        }
    }
}

/// A golden action book: rows with distinct keys, each key the width of the
/// book's board size, each action on that board.
pub struct GoldenActionBook {
    board_size: u8,
    entries: Vec<BookEntry>,
}

/// The rows of a book have distinct keys of the board's key width and
/// on-board actions.
pub open spec fn rows_fit(rows: Seq<BookRowView>, board_size: u8) -> bool {
    &&& rows.len() > 0 ==> codec_size(board_size as int)
    &&& forall|i: int| 0 <= i < rows.len() ==> (#[trigger] rows[i]).key.len() == key_len(board_size as int)
    &&& forall|i: int, j: int| 0 <= i < j < rows.len() ==> (#[trigger] rows[i]).key != (#[trigger] rows[j]).key
    &&& forall|i: int| 0 <= i < rows.len() ==> labels_on_board((#[trigger] rows[i]).values, board_size)
}

/// Every labelled action is on a `board_size` board.
pub open spec fn labels_on_board(values: Option<Seq<GoldenActionValue>>, board_size: u8) -> bool {
    match values {
        Some(values) => forall|k: int|
            0 <= k < values.len() ==> action_on_board(#[trigger] values[k].action, board_size as int),
        None => true,
    }
}

/// The index of the row with key `key`, if any.
pub open spec fn row_index(rows: Seq<BookRowView>, key: Seq<u8>) -> Option<int> {
    if exists|i: int| 0 <= i < rows.len() && (#[trigger] rows[i]).key == key {
        Some(choose|i: int| 0 <= i < rows.len() && (#[trigger] rows[i]).key == key)
    } else {
        None
    }
}

impl GoldenActionBook {
    pub closed spec fn view(&self) -> Seq<BookRowView> {
        self.entries@.map_values(|e: BookEntry| e.view())
    }

    pub closed spec fn spec_board_size(&self) -> u8 {
        self.board_size
    }

    #[verifier::type_invariant]
    closed spec fn inv(&self) -> bool {
        &&& codec_size(self.board_size as int)
        &&& rows_fit(self.view(), self.board_size)
    }

    /// An empty book for a board size that the key codec supports.
    pub fn new(board_size: u8) -> (r: Result<Self, String>)
        ensures
            r is Ok <==> codec_size(board_size as int),
            r matches Ok(book) ==> book@ == Seq::<BookRowView>::empty() && book.spec_board_size()
                == board_size,
            r matches Err(e) ==> e@ == "golden key codec supports board sizes 3 through 7"@,
    {
        if let Err(e) = key_bytes_for_board_size(board_size) {
            return Err(e);
        }
        let r = GoldenActionBook { board_size, entries: Vec::new() };
        proof {
            assert(r.view() =~= Seq::<BookRowView>::empty());
        }
        Ok(r)
    }

    /// Number of distinct keys.
    pub fn rows(&self) -> (r: usize)
        ensures
            r == self@.len(),
    {
        self.entries.len()
    }

    /// The index of the entry with key `key`.
    fn find(&self, key: &Vec<u8>) -> (r: Option<usize>)
        ensures
            match r {
                Some(i) => i < self@.len() && row_index(self@, key@) == Some(i as int),
                None => row_index(self@, key@) is None,
            },
    {
        proof {
            use_type_invariant(self);
        }
        let mut i: usize = 0;
        while i < self.entries.len()
            invariant
                i <= self.entries.len(),
                self@.len() == self.entries.len(),
                rows_fit(self@, self.board_size),
                forall|j: int| 0 <= j < i ==> (#[trigger] self@[j]).key != key@,
            decreases self.entries.len() - i,
        {
            if same_bytes(&self.entries[i].key, key) {
                proof {
                    assert(self@[i as int].key == key@);
                    assert forall|j: int| 0 <= j < self@.len() && (#[trigger] self@[j]).key == key@ implies j == i by {
                        if j != i {
                            if j < i {
                                assert(self@[j].key != self@[i as int].key);
                            } else {
                                assert(self@[i as int].key != self@[j].key);
                            }
                        }
                    }
                }
                return Some(i);
            }
            i = i + 1;
        }
        None
    }

    /// The action labels stored under a canonical key.
    pub fn values_for_key(&self, key: &Vec<u8>) -> (r: Option<Vec<GoldenActionValue>>)
        ensures
            match row_index(self@, key@) {
                Some(i) => match self@[i].values {
                    Some(values) => r matches Some(v) && v@ == values,
                    None => r is None,
                },
                None => r is None,
            },
    {
        match self.find(key) {
            Some(i) => {
                proof {
                    assert(self@[i as int] == self.entries@[i as int].view());
                }
                match &self.entries[i].values {
                    Some(values) => Some(copy_values(values)),
                    None => None,
                }
            },
            None => None,
        }
    }

    /// The exact value stored under a canonical key.
    pub fn row_for_key(&self, key: &Vec<u8>) -> (r: Option<GoldenRowValue>)
        ensures
            r == (match row_index(self@, key@) {
                Some(i) => self@[i].row,
                None => None,
            }),
    {
        match self.find(key) {
            Some(i) => {
                proof {
                    assert(self@[i as int] == self.entries@[i as int].view());
                }
                self.entries[i].row
            },
            None => None,
        }
    }
}

/// A copy of a list of labels.
pub(crate) fn copy_values(values: &Vec<GoldenActionValue>) -> (r: Vec<GoldenActionValue>)
    ensures
        r@ == values@,
{
    let mut r: Vec<GoldenActionValue> = Vec::new();
    let mut i: usize = 0;
    while i < values.len()
        invariant
            i <= values.len(),
            r@ == values@.take(i as int),
        decreases values.len() - i,
    {
        r.push(values[i]);
        i = i + 1;
        proof {
            assert(r@ =~= values@.take(i as int));
        }
    }
    proof {
        assert(values@.take(values.len() as int) =~= values@);
    }
    r
}

/// Two byte strings are equal.
pub(crate) fn same_bytes(a: &Vec<u8>, b: &Vec<u8>) -> (r: bool)
    ensures
        r == (a@ == b@),
{
    if a.len() != b.len() {
        return false;
    }
    let mut i: usize = 0;
    while i < a.len()
        invariant
            a.len() == b.len(),
            i <= a.len(),
            forall|j: int| 0 <= j < i ==> a@[j] == b@[j],
        decreases a.len() - i,
    {
        if a[i] != b[i] {
            return false;
        }
        i = i + 1;
    }
    proof {
        assert(a@ =~= b@);
    }
    true
}

// ---------------------------------------------------------------------------
// The compact binary formats
// ---------------------------------------------------------------------------

/// A message about a book read from memory.
pub open spec fn at_memory(message: Seq<char>) -> Seq<char> {
    "<memory>: "@ + message
}

/// A row-numbered message about a book read from memory.
pub open spec fn at_row(message: Seq<char>, row: nat) -> Seq<char> {
    at_memory(message + decimal_text(row))
}

pub open spec fn read_u16(bytes: Seq<u8>, at: int) -> nat {
    bytes[at] as nat + 256 * bytes[at + 1] as nat
}

pub open spec fn read_u32(bytes: Seq<u8>, at: int) -> nat {
    read_u16(bytes, at) + 65536 * read_u16(bytes, at + 2)
}

/// A stored distance: all ones means none.
pub open spec fn stored_distance(value: nat) -> Option<u16> {
    if value == 0xffff {
        None
    } else {
        Some(value as u16)
    }
}

/// `rest` with `prefix` put in front of what it parsed.
pub open spec fn prefixed<T>(prefix: Seq<T>, rest: Result<(Seq<T>, nat), Seq<char>>) -> Result<
    (Seq<T>, nat),
    Seq<char>,
> {
    match rest {
        Ok((items, end)) => Ok((prefix + items, end)),
        Err(e) => Err(e),
    }
}

proof fn lemma_prefixed_push<T>(prefix: Seq<T>, item: T, rest: Result<(Seq<T>, nat), Seq<char>>)
    ensures
        prefixed(prefix, prefixed(seq![item], rest)) == prefixed(prefix.push(item), rest),
{
    if let Ok((items, end)) = rest {
        assert(prefix + (seq![item] + items) =~= prefix.push(item) + items);
    }
}

pub open spec fn namespace_mismatch(board_size: u8) -> Seq<char> {
    "action-book namespace does not match "@ + decimal_text(board_size as nat) + "x"@
        + decimal_text(board_size as nat) + "/14"@
}

pub open spec fn v1_magic() -> Seq<u8> {
    seq![80u8, 71u8, 65u8, 67u8, 84u8, 48u8, 49u8, 0u8]
}

pub open spec fn v2_magic() -> Seq<u8> {
    seq![80u8, 71u8, 65u8, 67u8, 84u8, 48u8, 50u8, 0u8]
}

pub open spec fn starts_with(bytes: Seq<u8>, magic: Seq<u8>) -> bool {
    bytes.len() >= magic.len() && bytes.subrange(0, magic.len() as int) == magic
}

/// The labels of a version-1 row: `remaining` two-byte codes from `at`,
/// each a proven win in one.
pub open spec fn v1_labels(src: Seq<u8>, at: nat, remaining: nat, board_size: u8) -> Result<
    (Seq<GoldenActionValue>, nat),
    Seq<char>,
>
    decreases remaining,
{
    if remaining == 0 {
        Ok((Seq::empty(), at))
    } else {
        match code_action(read_u16(src, at as int), board_size) {
            Err(e) => Err(at_memory(e)),
            Ok(action) => prefixed(
                seq![
                    GoldenActionValue {
                        action,
                        outcome: Some(GoldenOutcome::Win),
                        distance: Some(1),
                    },
                ],
                v1_labels(src, at + 2, (remaining - 1) as nat, board_size),
            ),
        }
    }
}

/// Version-1 rows from `at`: key, two-byte count, codes; keys strictly
/// increasing.
pub open spec fn v1_rows(
    src: Seq<u8>,
    at: nat,
    remaining: nat,
    row: nat,
    previous: Option<Seq<u8>>,
    board_size: u8,
) -> Result<(Seq<BookRowView>, nat), Seq<char>>
    decreases remaining,
{
    let width = key_len(board_size as int);
    let key = src.subrange(at as int, (at + width) as int);
    let count = read_u16(src, (at + width) as int);
    let body = at + width + 2;
    if remaining == 0 {
        Ok((Seq::empty(), at))
    } else if at + width + 2 > src.len() {
        Err(at_row("truncated action-book row "@, row))
    } else if previous matches Some(p) && !lex_less(p, key) {
        Err(at_row("action-book keys are not strictly sorted at row "@, row))
    } else if body + 2 * count > src.len() {
        Err(at_row("truncated actions at row "@, row))
    } else {
        match v1_labels(src, body, count, board_size) {
            Err(e) => Err(e),
            Ok((labels, next)) => prefixed(
                seq![BookRowView { key, values: Some(labels), row: None }],
                v1_rows(src, next, (remaining - 1) as nat, row + 1, Some(key), board_size),
            ),
        }
    }
}

/// A whole version-1 book.
pub open spec fn v1_book(src: Seq<u8>, board_size: u8) -> Result<Seq<BookRowView>, Seq<char>> {
    if src.len() < 16 {
        Err(at_memory("truncated golden action-book header"@))
    } else if src[8] != board_size || src[9] != 14 {
        Err(at_memory(namespace_mismatch(board_size)))
    } else if !codec_size(board_size as int) {
        Err("golden key codec supports board sizes 3 through 7"@)
    } else if src[10] != key_len(board_size as int) || src[11] != 0 {
        Err(at_memory("unsupported action-book key width"@))
    } else {
        match v1_rows(src, 16, read_u32(src, 12), 0, None, board_size) {
            Err(e) => Err(e),
            Ok((rows, end)) => if end != src.len() {
                Err(at_memory("trailing bytes after action-book rows"@))
            } else {
                Ok(rows)
            },
        }
    }
}

/// The labels of a version-2 row: per action a two-byte code, an outcome
/// byte (3 for unknown) and a two-byte distance; no action twice.
pub open spec fn v2_labels(
    src: Seq<u8>,
    at: nat,
    remaining: nat,
    index: nat,
    row: nat,
    seen: Seq<Action>,
    board_size: u8,
) -> Result<(Seq<GoldenActionValue>, nat), Seq<char>>
    decreases remaining,
{
    let outcome_byte = src[at + 2int];
    let outcome = if outcome_byte == 3 {
        None
    } else {
        GoldenOutcome::of_code(outcome_byte)
    };
    let distance = stored_distance(read_u16(src, at + 3int));
    if remaining == 0 {
        Ok((Seq::empty(), at))
    } else if at + 5 > src.len() {
        Err(
            at_memory(
                "truncated v2 action "@ + decimal_text(index) + " in row "@ + decimal_text(row),
            ),
        )
    } else {
        match code_action(read_u16(src, at as int), board_size) {
            Err(e) => Err(at_memory(e)),
            Ok(action) => if outcome_byte != 3 && outcome is None {
                Err(at_row("invalid v2 action outcome at row "@, row))
            } else if outcome is None && distance is Some {
                Err(at_row("unknown v2 action has a distance at row "@, row))
            } else if outcome == Some(GoldenOutcome::Draw) && distance is Some {
                Err(at_row("draw v2 action has a terminal distance at row "@, row))
            } else if (outcome == Some(GoldenOutcome::Loss) || outcome == Some(GoldenOutcome::Win))
                && distance is None {
                Err(at_row("known v2 action lacks a terminal distance at row "@, row))
            } else if seen.contains(action) {
                Err(at_row("duplicate v2 action at row "@, row))
            } else {
                prefixed(
                    seq![GoldenActionValue { action, outcome, distance }],
                    v2_labels(
                        src,
                        at + 5,
                        (remaining - 1) as nat,
                        index + 1,
                        row,
                        seen.push(action),
                        board_size,
                    ),
                )
            },
        }
    }
}

/// Version-2 rows from `at`: key, flags, row outcome, two-byte distance,
/// two-byte count, labels; keys strictly increasing.
pub open spec fn v2_rows(
    src: Seq<u8>,
    at: nat,
    remaining: nat,
    row: nat,
    previous: Option<Seq<u8>>,
    board_size: u8,
) -> Result<(Seq<BookRowView>, nat), Seq<char>>
    decreases remaining,
{
    let width = key_len(board_size as int);
    let key = src.subrange(at as int, (at + width) as int);
    let flags = src[(at + width) as int];
    let outcome = GoldenOutcome::of_code(src[(at + width + 1) as int]);
    let distance = read_u16(src, (at + width + 2) as int);
    let count = read_u16(src, (at + width + 4) as int);
    if remaining == 0 {
        Ok((Seq::empty(), at))
    } else if at + width + 6 > src.len() {
        Err(at_row("truncated v2 action-book row "@, row))
    } else if previous matches Some(p) && !lex_less(p, key) {
        Err(at_row("action-book v2 keys are not strictly sorted at row "@, row))
    } else if flags > 1 {
        Err(at_row("unsupported v2 action-book flags at row "@, row))
    } else if outcome is None {
        Err(at_row("invalid v2 row outcome at row "@, row))
    } else if outcome == Some(GoldenOutcome::Draw) && distance != 0xffff {
        Err(at_row("draw v2 row has a terminal distance at row "@, row))
    } else if outcome != Some(GoldenOutcome::Draw) && distance == 0xffff {
        Err(at_row("known v2 row lacks a terminal distance at row "@, row))
    } else {
        match v2_labels(src, at + width + 6, count, 0, row, Seq::empty(), board_size) {
            Err(e) => Err(e),
            Ok((labels, next)) => prefixed(
                seq![
                    BookRowView {
                        key,
                        values: Some(labels),
                        row: Some(
                            GoldenRowValue {
                                outcome: outcome.unwrap(),
                                distance: stored_distance(distance),
                                optimal_actions_complete: flags == 1,
                            },
                        ),
                    },
                ],
                v2_rows(src, next, (remaining - 1) as nat, row + 1, Some(key), board_size),
            ),
        }
    }
}

/// A whole version-2 book.
pub open spec fn v2_book(src: Seq<u8>, board_size: u8) -> Result<Seq<BookRowView>, Seq<char>> {
    if src.len() < 16 {
        Err(at_memory("truncated golden action-book v2 header"@))
    } else if src[8] != board_size || src[9] != 14 {
        Err(at_memory(namespace_mismatch(board_size)))
    } else if !codec_size(board_size as int) {
        Err("golden key codec supports board sizes 3 through 7"@)
    } else if src[10] != key_len(board_size as int) || src[11] != 0 {
        Err(at_memory("unsupported action-book v2 key width"@))
    } else {
        match v2_rows(src, 16, read_u32(src, 12), 0, None, board_size) {
            Err(e) => Err(e),
            Ok((rows, end)) => if end != src.len() {
                Err(at_memory("trailing bytes after v2 action-book rows"@))
            } else {
                Ok(rows)
            },
        }
    }
}

/// What reading a compact book from memory gives.
pub open spec fn parsed_book(src: Seq<u8>, board_size: u8) -> Result<Seq<BookRowView>, Seq<char>> {
    if starts_with(src, v2_magic()) {
        v2_book(src, board_size)
    } else if !starts_with(src, v1_magic()) {
        Err(at_memory("unsupported action-book format"@))
    } else {
        v1_book(src, board_size)
    }
}

fn memory_error(message: &str) -> (r: String)
    ensures
        r@ == at_memory(message@),
{
    String::from_str("<memory>: ").concat(message)
}

fn row_error(message: &str, row: u32) -> (r: String)
    ensures
        r@ == at_row(message@, row as nat),
{
    let r = String::from_str("<memory>: ").concat(message).concat(
        decimal_string_u64(row as u64).as_str(),
    );
    proof {
        assert(r@ =~= at_row(message@, row as nat));
    }
    r
}

fn read_u16_at(bytes: &[u8], at: usize) -> (r: u16)
    requires
        at + 2 <= bytes.len(),
    ensures
        r == read_u16(bytes@, at as int),
{
    bytes[at] as u16 + 256 * (bytes[at + 1] as u16)
}

fn read_u32_at(bytes: &[u8], at: usize) -> (r: u32)
    requires
        at + 4 <= bytes.len(),
    ensures
        r == read_u32(bytes@, at as int),
{
    read_u16_at(bytes, at) as u32 + 65536 * (read_u16_at(bytes, at + 2) as u32)
}

fn copy_bytes(bytes: &[u8], start: usize, end: usize) -> (r: Vec<u8>)
    requires
        start <= end <= bytes.len(),
    ensures
        r@ == bytes@.subrange(start as int, end as int),
{
    let mut r: Vec<u8> = Vec::new();
    let mut i = start;
    while i < end
        invariant
            start <= i <= end <= bytes.len(),
            r@ == bytes@.subrange(start as int, i as int),
        decreases end - i,
    {
        r.push(bytes[i]);
        i = i + 1;
        proof {
            assert(r@ =~= bytes@.subrange(start as int, i as int));
        }
    }
    r
}

/// The views of a list of entries.
spec fn book_rows(entries: Seq<BookEntry>) -> Seq<BookRowView> {
    entries.map_values(|e: BookEntry| e.view())
}

/// Keys that increase strictly from row to row.
pub open spec fn keys_increasing(rows: Seq<BookRowView>) -> bool {
    forall|i: int, j: int| 0 <= i < j < rows.len() ==> lex_less(#[trigger] rows[i].key, #[trigger] rows[j].key)
}

proof fn lemma_increasing_rows_fit(rows: Seq<BookRowView>, board_size: u8)
    requires
        keys_increasing(rows),
        rows.len() > 0 ==> codec_size(board_size as int),
        forall|i: int| 0 <= i < rows.len() ==> (#[trigger] rows[i]).key.len() == key_len(board_size as int),
        forall|i: int| 0 <= i < rows.len() ==> labels_on_board((#[trigger] rows[i]).values, board_size),
    ensures
        rows_fit(rows, board_size),
{
    assert forall|i: int, j: int| 0 <= i < j < rows.len() implies (#[trigger] rows[i]).key != (#[trigger] rows[j]).key by {
        lemma_lex_less_irreflexive(rows[i].key);
    }
}

/// Extending increasing keys by a key above the last one keeps them increasing.
proof fn lemma_keys_increasing_push(rows: Seq<BookRowView>, row: BookRowView)
    requires
        keys_increasing(rows),
        rows.len() > 0 ==> lex_less(rows.last().key, row.key),
    ensures
        keys_increasing(rows.push(row)),
{
    let all = rows.push(row);
    assert forall|i: int, j: int| 0 <= i < j < all.len() implies lex_less(#[trigger] all[i].key, #[trigger] all[j].key) by {
        if j == rows.len() && i < rows.len() - 1 {
            lemma_lex_less_transitive(rows[i].key, rows.last().key, row.key);
        }
    }
}

fn read_v1_labels(source: &[u8], body: usize, count: usize, board_size: u8) -> (r: Result<
    (Vec<GoldenActionValue>, usize),
    String,
>)
    requires
        body + 2 * count <= source.len(),
        codec_size(board_size as int),
    ensures
        match r {
            Ok((labels, end)) => v1_labels(source@, body as nat, count as nat, board_size) == Ok::<
                (Seq<GoldenActionValue>, nat),
                Seq<char>,
            >((labels@, end as nat)) && labels_on_board(Some(labels@), board_size) && end
                == body + 2 * count,
            Err(e) => v1_labels(source@, body as nat, count as nat, board_size) == Err::<
                (Seq<GoldenActionValue>, nat),
                Seq<char>,
            >(e@),
        },
{
    let ghost whole = v1_labels(source@, body as nat, count as nat, board_size);
    let mut labels: Vec<GoldenActionValue> = Vec::new();
    let mut at = body;
    let mut k: usize = 0;
    proof {
        assert(Seq::<GoldenActionValue>::empty() + Seq::<GoldenActionValue>::empty() =~= Seq::<
            GoldenActionValue,
        >::empty());
        assert(prefixed(labels@, v1_labels(source@, at as nat, count as nat, board_size)) == whole) by {
            match whole {
                Ok((items, end)) => {
                    assert(Seq::<GoldenActionValue>::empty() + items =~= items);
                },
                Err(_) => {},
            }
        }
    }
    while k < count
        invariant
            k <= count,
            at == body + 2 * k,
            body + 2 * count <= source.len(),
            codec_size(board_size as int),
            whole == v1_labels(source@, body as nat, count as nat, board_size),
            whole == prefixed(labels@, v1_labels(source@, at as nat, (count - k) as nat, board_size)),
            forall|j: int| 0 <= j < labels.len() ==> action_on_board(#[trigger] labels@[j].action, board_size as int),
        decreases count - k,
    {
        let code = read_u16_at(source, at);
        let action = match action_from_code(code, board_size) {
            Ok(action) => action,
            Err(e) => {
                proof {
                    assert(v1_labels(source@, at as nat, (count - k) as nat, board_size) == Err::<
                        (Seq<GoldenActionValue>, nat),
                        Seq<char>,
                    >(at_memory(e@)));
                    assert(whole == Err::<(Seq<GoldenActionValue>, nat), Seq<char>>(at_memory(e@)));
                }
                let message = memory_error(e.as_str());
                assert(message@ == at_memory(e@));
                return Err(message);
            },
        };
        let value = GoldenActionValue {
            action,
            outcome: Some(GoldenOutcome::Win),
            distance: Some(1),
        };
        proof {
            lemma_prefixed_push(
                labels@,
                value,
                v1_labels(source@, (at + 2) as nat, (count - k - 1) as nat, board_size),
            );
        }
        labels.push(value);
        at = at + 2;
        k = k + 1;
    }
    proof {
        assert(labels@ + Seq::<GoldenActionValue>::empty() =~= labels@);
    }
    Ok((labels, at))
}

/// The rows of a version-1 book, from offset 16.
fn read_v1_rows(source: &[u8], rows: u32, board_size: u8, width: usize) -> (r: Result<
    (Vec<BookEntry>, usize),
    String,
>)
    requires
        16 <= source.len(),
        codec_size(board_size as int),
        width == key_len(board_size as int),
        width <= 14,
    ensures
        match r {
            Ok((entries, end)) => v1_rows(source@, 16, rows as nat, 0, None, board_size) == Ok::<
                (Seq<BookRowView>, nat),
                Seq<char>,
            >((book_rows(entries@), end as nat)) && rows_fit(book_rows(entries@), board_size),
            Err(e) => v1_rows(source@, 16, rows as nat, 0, None, board_size) == Err::<
                (Seq<BookRowView>, nat),
                Seq<char>,
            >(e@),
        },
{
    let ghost whole = v1_rows(source@, 16, rows as nat, 0, None, board_size);
    let mut entries: Vec<BookEntry> = Vec::new();
    let mut offset: usize = 16;
    let mut row: u32 = 0;
    proof {
        assert(book_rows(entries@) =~= Seq::<BookRowView>::empty());
        match whole {
            Ok((items, end)) => {
                assert(Seq::<BookRowView>::empty() + items =~= items);
            },
            Err(_) => {},
        }
    }
    while row < rows
        invariant
            16 <= offset <= source.len(),
            row <= rows,
            codec_size(board_size as int),
            width == key_len(board_size as int),
            width <= 14,
            book_rows(entries@).len() == row,
            whole == v1_rows(source@, 16, rows as nat, 0, None, board_size),
            whole == prefixed(
                book_rows(entries@),
                v1_rows(
                    source@,
                    offset as nat,
                    (rows - row) as nat,
                    row as nat,
                    if row == 0 {
                        None
                    } else {
                        Some(book_rows(entries@).last().key)
                    },
                    board_size,
                ),
            ),
            keys_increasing(book_rows(entries@)),
            forall|i: int| 0 <= i < book_rows(entries@).len() ==> (#[trigger] book_rows(entries@)[i]).key.len() == width,
            forall|i: int| 0 <= i < book_rows(entries@).len() ==> labels_on_board((#[trigger] book_rows(entries@)[i]).values, board_size),
        decreases rows - row,
    {
        let ghost previous = if row == 0 {
            None
        } else {
            Some(book_rows(entries@).last().key)
        };
        let ghost rest = v1_rows(source@, offset as nat, (rows - row) as nat, row as nat, previous, board_size);
        if source.len() - offset < width + 2 {
            let message = row_error("truncated action-book row ", row);
            proof {
                assert(rest == Err::<(Seq<BookRowView>, nat), Seq<char>>(message@));
            }
            return Err(message);
        }
        let key = copy_bytes(source, offset, offset + width);
        if entries.len() > 0 {
            proof {
                assert(book_rows(entries@).last() == entries@[entries.len() - 1].view());
            }
            if !key_less(&entries[entries.len() - 1].key, &key) {
                let message = row_error("action-book keys are not strictly sorted at row ", row);
                proof {
                    assert(rest == Err::<(Seq<BookRowView>, nat), Seq<char>>(message@));
                }
                return Err(message);
            }
        }
        let count = read_u16_at(source, offset + width) as usize;
        let body = offset + width + 2;
        if source.len() - body < 2 * count {
            let message = row_error("truncated actions at row ", row);
            proof {
                assert(rest == Err::<(Seq<BookRowView>, nat), Seq<char>>(message@));
            }
            return Err(message);
        }
        let (labels, next) = match read_v1_labels(source, body, count, board_size) {
            Ok(parsed) => parsed,
            Err(e) => {
                proof {
                    assert(rest == Err::<(Seq<BookRowView>, nat), Seq<char>>(e@));
                }
                return Err(e);
            },
        };
        let entry = BookEntry { key, values: Some(labels), row: None };
        proof {
            let view = entry.view();
            lemma_prefixed_push(
                book_rows(entries@),
                view,
                v1_rows(
                    source@,
                    next as nat,
                    (rows - row - 1) as nat,
                    row as nat + 1,
                    Some(view.key),
                    board_size,
                ),
            );
            lemma_keys_increasing_push(book_rows(entries@), view);
            assert(book_rows(entries@.push(entry)) =~= book_rows(entries@).push(view));
        }
        entries.push(entry);
        offset = next;
        row = row + 1;
    }
    proof {
        assert(book_rows(entries@) + Seq::<BookRowView>::empty() =~= book_rows(entries@));
        lemma_increasing_rows_fit(book_rows(entries@), board_size);
    }
    Ok((entries, offset))
}

fn namespace_error(board_size: u8) -> (r: String)
    ensures
        r@ == at_memory(namespace_mismatch(board_size)),
{
    let size = decimal_string_u64(board_size as u64);
    let message = String::from_str("<memory>: ").concat(
        "action-book namespace does not match ",
    ).concat(size.as_str()).concat("x").concat(size.as_str()).concat("/14");
    proof {
        assert(message@ =~= at_memory(namespace_mismatch(board_size)));
    }
    message
}

fn parse_v1(source: &[u8], board_size: u8) -> (r: Result<Vec<BookEntry>, String>)
    ensures
        match r {
            Ok(entries) => v1_book(source@, board_size) == Ok::<Seq<BookRowView>, Seq<char>>(
                book_rows(entries@),
            ) && rows_fit(book_rows(entries@), board_size),
            Err(e) => v1_book(source@, board_size) == Err::<Seq<BookRowView>, Seq<char>>(e@),
        },
{
    if source.len() < 16 {
        return Err(memory_error("truncated golden action-book header"));
    }
    if source[8] != board_size || source[9] != 14 {
        return Err(namespace_error(board_size));
    }
    let width = match key_bytes_for_board_size(board_size) {
        Ok(n) => n,
        Err(e) => {
            return Err(e);
        },
    };
    proof {
        crate::golden::lemma_codec_widths(board_size as int);
    }
    if source[10] as usize != width || source[11] != 0 {
        return Err(memory_error("unsupported action-book key width"));
    }
    let rows = read_u32_at(source, 12);
    let (entries, end) = match read_v1_rows(source, rows, board_size, width) {
        Ok(parsed) => parsed,
        Err(e) => {
            return Err(e);
        },
    };
    if end != source.len() {
        return Err(memory_error("trailing bytes after action-book rows"));
    }
    Ok(entries)
}

fn read_v2_labels(source: &[u8], body: usize, count: usize, row: u32, board_size: u8) -> (r: Result<
    (Vec<GoldenActionValue>, usize),
    String,
>)
    requires
        body <= source.len(),
        codec_size(board_size as int),
        count <= 0xffff,
    ensures
        match r {
            Ok((labels, end)) => v2_labels(
                source@,
                body as nat,
                count as nat,
                0,
                row as nat,
                Seq::empty(),
                board_size,
            ) == Ok::<(Seq<GoldenActionValue>, nat), Seq<char>>((labels@, end as nat))
                && labels_on_board(Some(labels@), board_size) && body <= end <= source.len(),
            Err(e) => v2_labels(
                source@,
                body as nat,
                count as nat,
                0,
                row as nat,
                Seq::empty(),
                board_size,
            ) == Err::<(Seq<GoldenActionValue>, nat), Seq<char>>(e@),
        },
{
    let ghost whole = v2_labels(source@, body as nat, count as nat, 0, row as nat, Seq::empty(), board_size);
    let mut labels: Vec<GoldenActionValue> = Vec::new();
    let mut actions: Vec<Action> = Vec::new();
    let mut at = body;
    let mut k: usize = 0;
    proof {
        assert(actions@ =~= Seq::<Action>::empty());
        match whole {
            Ok((items, end)) => {
                assert(Seq::<GoldenActionValue>::empty() + items =~= items);
            },
            Err(_) => {},
        }
    }
    while k < count
        invariant
            k <= count <= 0xffff,
            body <= at <= source.len(),
            codec_size(board_size as int),
            whole == v2_labels(source@, body as nat, count as nat, 0, row as nat, Seq::empty(), board_size),
            whole == prefixed(
                labels@,
                v2_labels(source@, at as nat, (count - k) as nat, k as nat, row as nat, actions@, board_size),
            ),
            actions@.len() == labels@.len(),
            forall|j: int| 0 <= j < labels.len() ==> (#[trigger] labels@[j]).action == actions@[j],
            forall|j: int| 0 <= j < labels.len() ==> action_on_board(#[trigger] labels@[j].action, board_size as int),
        decreases count - k,
    {
        let ghost rest = v2_labels(source@, at as nat, (count - k) as nat, k as nat, row as nat, actions@, board_size);
        if source.len() - at < 5 {
            let message = String::from_str("<memory>: ").concat("truncated v2 action ").concat(
                decimal_string_u64(k as u64).as_str(),
            ).concat(" in row ").concat(decimal_string_u64(row as u64).as_str());
            proof {
                assert(message@ =~= at_memory(
                    "truncated v2 action "@ + decimal_text(k as nat) + " in row "@ + decimal_text(row as nat),
                ));
                assert(rest == Err::<(Seq<GoldenActionValue>, nat), Seq<char>>(message@));
            }
            return Err(message);
        }
        let code = read_u16_at(source, at);
        let action = match action_from_code(code, board_size) {
            Ok(action) => action,
            Err(e) => {
                let message = memory_error(e.as_str());
                proof {
                    assert(rest == Err::<(Seq<GoldenActionValue>, nat), Seq<char>>(message@));
                }
                return Err(message);
            },
        };
        let outcome_byte = source[at + 2];
        let outcome = if outcome_byte == 3 {
            None
        } else {
            GoldenOutcome::from_byte(outcome_byte)
        };
        if outcome_byte != 3 && outcome.is_none() {
            let message = row_error("invalid v2 action outcome at row ", row);
            proof {
                assert(rest == Err::<(Seq<GoldenActionValue>, nat), Seq<char>>(message@));
            }
            return Err(message);
        }
        let stored = read_u16_at(source, at + 3);
        let distance = if stored == 0xffff {
            None
        } else {
            Some(stored)
        };
        if outcome.is_none() && distance.is_some() {
            let message = row_error("unknown v2 action has a distance at row ", row);
            proof {
                assert(rest == Err::<(Seq<GoldenActionValue>, nat), Seq<char>>(message@));
            }
            return Err(message);
        }
        if outcome == Some(GoldenOutcome::Draw) && distance.is_some() {
            let message = row_error("draw v2 action has a terminal distance at row ", row);
            proof {
                assert(rest == Err::<(Seq<GoldenActionValue>, nat), Seq<char>>(message@));
            }
            return Err(message);
        }
        if (outcome == Some(GoldenOutcome::Loss) || outcome == Some(GoldenOutcome::Win))
            && distance.is_none() {
            let message = row_error("known v2 action lacks a terminal distance at row ", row);
            proof {
                assert(rest == Err::<(Seq<GoldenActionValue>, nat), Seq<char>>(message@));
            }
            return Err(message);
        }
        if contains_action(&actions, action) {
            let message = row_error("duplicate v2 action at row ", row);
            proof {
                assert(rest == Err::<(Seq<GoldenActionValue>, nat), Seq<char>>(message@));
            }
            return Err(message);
        }
        let value = GoldenActionValue { action, outcome, distance };
        proof {
            lemma_prefixed_push(
                labels@,
                value,
                v2_labels(
                    source@,
                    (at + 5) as nat,
                    (count - k - 1) as nat,
                    k as nat + 1,
                    row as nat,
                    actions@.push(action),
                    board_size,
                ),
            );
        }
        labels.push(value);
        actions.push(action);
        at = at + 5;
        k = k + 1;
    }
    proof {
        assert(labels@ + Seq::<GoldenActionValue>::empty() =~= labels@);
    }
    Ok((labels, at))
}

/// The rows of a version-2 book, from offset 16.
fn read_v2_rows(source: &[u8], rows: u32, board_size: u8, width: usize) -> (r: Result<
    (Vec<BookEntry>, usize),
    String,
>)
    requires
        16 <= source.len(),
        codec_size(board_size as int),
        width == key_len(board_size as int),
        width <= 14,
    ensures
        match r {
            Ok((entries, end)) => v2_rows(source@, 16, rows as nat, 0, None, board_size) == Ok::<
                (Seq<BookRowView>, nat),
                Seq<char>,
            >((book_rows(entries@), end as nat)) && rows_fit(book_rows(entries@), board_size),
            Err(e) => v2_rows(source@, 16, rows as nat, 0, None, board_size) == Err::<
                (Seq<BookRowView>, nat),
                Seq<char>,
            >(e@),
        },
{
    let ghost whole = v2_rows(source@, 16, rows as nat, 0, None, board_size);
    let mut entries: Vec<BookEntry> = Vec::new();
    let mut offset: usize = 16;
    let mut row: u32 = 0;
    proof {
        assert(book_rows(entries@) =~= Seq::<BookRowView>::empty());
        match whole {
            Ok((items, end)) => {
                assert(Seq::<BookRowView>::empty() + items =~= items);
            },
            Err(_) => {},
        }
    }
    while row < rows
        invariant
            16 <= offset <= source.len(),
            row <= rows,
            codec_size(board_size as int),
            width == key_len(board_size as int),
            width <= 14,
            book_rows(entries@).len() == row,
            whole == v2_rows(source@, 16, rows as nat, 0, None, board_size),
            whole == prefixed(
                book_rows(entries@),
                v2_rows(
                    source@,
                    offset as nat,
                    (rows - row) as nat,
                    row as nat,
                    if row == 0 {
                        None
                    } else {
                        Some(book_rows(entries@).last().key)
                    },
                    board_size,
                ),
            ),
            keys_increasing(book_rows(entries@)),
            forall|i: int| 0 <= i < book_rows(entries@).len() ==> (#[trigger] book_rows(entries@)[i]).key.len() == width,
            forall|i: int| 0 <= i < book_rows(entries@).len() ==> labels_on_board((#[trigger] book_rows(entries@)[i]).values, board_size),
        decreases rows - row,
    {
        let ghost previous = if row == 0 {
            None
        } else {
            Some(book_rows(entries@).last().key)
        };
        let ghost rest = v2_rows(source@, offset as nat, (rows - row) as nat, row as nat, previous, board_size);
        if source.len() - offset < width + 6 {
            let message = row_error("truncated v2 action-book row ", row);
            proof {
                assert(rest == Err::<(Seq<BookRowView>, nat), Seq<char>>(message@));
            }
            return Err(message);
        }
        let key = copy_bytes(source, offset, offset + width);
        if entries.len() > 0 {
            proof {
                assert(book_rows(entries@).last() == entries@[entries.len() - 1].view());
            }
            if !key_less(&entries[entries.len() - 1].key, &key) {
                let message = row_error("action-book v2 keys are not strictly sorted at row ", row);
                proof {
                    assert(rest == Err::<(Seq<BookRowView>, nat), Seq<char>>(message@));
                }
                return Err(message);
            }
        }
        let flags = source[offset + width];
        if flags > 1 {
            let message = row_error("unsupported v2 action-book flags at row ", row);
            proof {
                assert(rest == Err::<(Seq<BookRowView>, nat), Seq<char>>(message@));
            }
            return Err(message);
        }
        let outcome = match GoldenOutcome::from_byte(source[offset + width + 1]) {
            Some(outcome) => outcome,
            None => {
                let message = row_error("invalid v2 row outcome at row ", row);
                proof {
                    assert(rest == Err::<(Seq<BookRowView>, nat), Seq<char>>(message@));
                }
                return Err(message);
            },
        };
        let distance = read_u16_at(source, offset + width + 2);
        if outcome == GoldenOutcome::Draw && distance != 0xffff {
            let message = row_error("draw v2 row has a terminal distance at row ", row);
            proof {
                assert(rest == Err::<(Seq<BookRowView>, nat), Seq<char>>(message@));
            }
            return Err(message);
        }
        if outcome != GoldenOutcome::Draw && distance == 0xffff {
            let message = row_error("known v2 row lacks a terminal distance at row ", row);
            proof {
                assert(rest == Err::<(Seq<BookRowView>, nat), Seq<char>>(message@));
            }
            return Err(message);
        }
        let count = read_u16_at(source, offset + width + 4) as usize;
        let (labels, next) = match read_v2_labels(source, offset + width + 6, count, row, board_size) {
            Ok(parsed) => parsed,
            Err(e) => {
                proof {
                    assert(rest == Err::<(Seq<BookRowView>, nat), Seq<char>>(e@));
                }
                return Err(e);
            },
        };
        let value = GoldenRowValue {
            outcome,
            distance: if distance == 0xffff {
                None
            } else {
                Some(distance)
            },
            optimal_actions_complete: flags == 1,
        };
        let entry = BookEntry { key, values: Some(labels), row: Some(value) };
        proof {
            let view = entry.view();
            lemma_prefixed_push(
                book_rows(entries@),
                view,
                v2_rows(
                    source@,
                    next as nat,
                    (rows - row - 1) as nat,
                    row as nat + 1,
                    Some(view.key),
                    board_size,
                ),
            );
            lemma_keys_increasing_push(book_rows(entries@), view);
            assert(book_rows(entries@.push(entry)) =~= book_rows(entries@).push(view));
        }
        entries.push(entry);
        offset = next;
        row = row + 1;
    }
    proof {
        assert(book_rows(entries@) + Seq::<BookRowView>::empty() =~= book_rows(entries@));
        lemma_increasing_rows_fit(book_rows(entries@), board_size);
    }
    Ok((entries, offset))
}

fn parse_v2(source: &[u8], board_size: u8) -> (r: Result<Vec<BookEntry>, String>)
    ensures
        match r {
            Ok(entries) => v2_book(source@, board_size) == Ok::<Seq<BookRowView>, Seq<char>>(
                book_rows(entries@),
            ) && rows_fit(book_rows(entries@), board_size),
            Err(e) => v2_book(source@, board_size) == Err::<Seq<BookRowView>, Seq<char>>(e@),
        },
{
    if source.len() < 16 {
        return Err(memory_error("truncated golden action-book v2 header"));
    }
    if source[8] != board_size || source[9] != 14 {
        return Err(namespace_error(board_size));
    }
    let width = match key_bytes_for_board_size(board_size) {
        Ok(n) => n,
        Err(e) => {
            return Err(e);
        },
    };
    proof {
        crate::golden::lemma_codec_widths(board_size as int);
    }
    if source[10] as usize != width || source[11] != 0 {
        return Err(memory_error("unsupported action-book v2 key width"));
    }
    let rows = read_u32_at(source, 12);
    let (entries, end) = match read_v2_rows(source, rows, board_size, width) {
        Ok(parsed) => parsed,
        Err(e) => {
            return Err(e);
        },
    };
    if end != source.len() {
        return Err(memory_error("trailing bytes after v2 action-book rows"));
    }
    Ok(entries)
}

/// Whether `source` begins with `magic`.
fn has_prefix(source: &[u8], magic: &[u8; 8]) -> (r: bool)
    ensures
        r == starts_with(source@, magic@),
{
    if source.len() < 8 {
        return false;
    }
    let mut i: usize = 0;
    while i < 8
        invariant
            i <= 8 <= source.len(),
            forall|j: int| 0 <= j < i ==> source@[j] == magic@[j],
        decreases 8 - i,
    {
        if source[i] != magic[i] {
            proof {
                assert(source@.subrange(0, 8)[i as int] != magic@[i as int]);
            }
            return false;
        }
        i = i + 1;
    }
    proof {
        assert(source@.subrange(0, 8) =~= magic@);
    }
    true
}

impl GoldenActionBook {
    /// Read a compact book (`PGACT01` or `PGACT02`) from memory.
    pub fn from_bytes(source: &[u8], board_size: u8) -> (r: Result<Self, String>)
        ensures
            match r {
                Ok(book) => parsed_book(source@, board_size) == Ok::<Seq<BookRowView>, Seq<char>>(
                    book@,
                ) && book.spec_board_size() == board_size,
                Err(e) => parsed_book(source@, board_size) == Err::<Seq<BookRowView>, Seq<char>>(
                    e@,
                ),
            },
    {
        let v1: [u8; 8] = [80, 71, 65, 67, 84, 48, 49, 0];
        let v2: [u8; 8] = [80, 71, 65, 67, 84, 48, 50, 0];
        proof {
            assert(v1@ =~= v1_magic());
            assert(v2@ =~= v2_magic());
        }
        let parsed = if has_prefix(source, &v2) {
            parse_v2(source, board_size)
        } else if !has_prefix(source, &v1) {
            return Err(memory_error("unsupported action-book format"));
        } else {
            parse_v1(source, board_size)
        };
        match parsed {
            Ok(entries) => {
                proof {
                    if !codec_size(board_size as int) {
                        assert(parsed_book(source@, board_size) is Err);
                    }
                }
                Ok(GoldenActionBook { board_size, entries })
            },
            Err(e) => Err(e),
        }
    }
}

// ---------------------------------------------------------------------------
// Lookups
// ---------------------------------------------------------------------------

/// `items` with `value` added at the end unless it is already there.
pub open spec fn push_new<T>(items: Seq<T>, value: T) -> Seq<T> {
    if items.contains(value) {
        items
    } else {
        items.push(value)
    }
}

/// A label seen through symmetry `symmetry`.
pub open spec fn oriented_label(value: GoldenActionValue, size: int, symmetry: int) -> GoldenActionValue {
    GoldenActionValue {
        action: transformed_action(value.action, size, symmetry),
        outcome: value.outcome,
        distance: value.distance,
    }
}

/// `acc` with the first `n` candidates, brought back through the inverse of
/// `symmetry`, added when new.
pub open spec fn add_oriented(
    acc: Seq<GoldenActionValue>,
    candidates: Seq<GoldenActionValue>,
    size: int,
    symmetry: int,
    n: nat,
) -> Seq<GoldenActionValue>
    decreases n,
{
    if n == 0 {
        acc
    } else {
        push_new(
            add_oriented(acc, candidates, size, symmetry, (n - 1) as nat),
            oriented_label(candidates[n - 1], size, inverse_of(symmetry)),
        )
    }
}

/// The stored labels in the caller's orientation: for each symmetry below
/// `n` that maps the position onto its canonical key, in order, every label
/// brought back through that symmetry's inverse, each distinct label once.
pub open spec fn oriented_values(
    state: GameState,
    key: Seq<u8>,
    candidates: Seq<GoldenActionValue>,
    n: nat,
) -> Seq<GoldenActionValue>
    decreases n,
{
    if n == 0 {
        Seq::empty()
    } else {
        let before = oriented_values(state, key, candidates, (n - 1) as nat);
        if orientation_key(state, n - 1) == key {
            add_oriented(
                before,
                candidates,
                state.config.board_size as int,
                n - 1,
                candidates.len(),
            )
        } else {
            before
        }
    }
}

/// The labels a book gives for a position, in the position's orientation.
pub open spec fn book_action_values(rows: Seq<BookRowView>, board_size: u8, state: GameState) -> Option<
    Seq<GoldenActionValue>,
> {
    let key = canonical_key_of(state);
    if state.config.board_size != board_size {
        None
    } else {
        match row_index(rows, key) {
            None => None,
            Some(i) => match rows[i].values {
                None => None,
                Some(candidates) => Some(oriented_values(state, key, candidates, 8)),
            },
        }
    }
}

/// The row value a book gives for a position.
pub open spec fn book_row_value(rows: Seq<BookRowView>, board_size: u8, state: GameState) -> Option<
    GoldenRowValue,
> {
    if state.config.board_size != board_size {
        None
    } else {
        match row_index(rows, canonical_key_of(state)) {
            None => None,
            Some(i) => rows[i].row,
        }
    }
}

/// The first action of least order among the first `n` labels that are
/// proven wins and legal.
pub open spec fn least_winning_action(values: Seq<GoldenActionValue>, legal: Seq<Action>, n: nat) -> Option<
    Action,
>
    decreases n,
{
    if n == 0 {
        None
    } else {
        let best = least_winning_action(values, legal, (n - 1) as nat);
        let value = values[n - 1];
        if value.outcome == Some(GoldenOutcome::Win) && legal.contains(value.action) {
            match best {
                None => Some(value.action),
                Some(action) => if value.action.spec_order() < action.spec_order() {
                    Some(value.action)
                } else {
                    best
                },
            }
        } else {
            best
        }
    }
}

/// The action a book proves for a position: the least-order legal proven
/// win among its labels, when the position has legal actions.
pub open spec fn book_proven_action(rows: Seq<BookRowView>, board_size: u8, state: GameState) -> Option<
    Action,
> {
    if state.spec_legal_actions().len() == 0 {
        None
    } else {
        match book_action_values(rows, board_size, state) {
            None => None,
            Some(values) => least_winning_action(values, state.spec_legal_actions(), values.len()),
        }
    }
}

/// Whether `values` holds `value`.
fn contains_value(values: &Vec<GoldenActionValue>, value: GoldenActionValue) -> (r: bool)
    ensures
        r == values@.contains(value),
{
    let mut i: usize = 0;
    while i < values.len()
        invariant
            i <= values.len(),
            forall|j: int| 0 <= j < i ==> values@[j] != value,
        decreases values.len() - i,
    {
        if values[i] == value {
            return true;
        }
        i = i + 1;
    }
    false
}

impl GoldenActionBook {
    /// The exact value of the position's row, when the book has one.
    pub fn row_value(&self, state: GameState) -> (r: Option<GoldenRowValue>)
        requires
            state.config.board_size == self.spec_board_size() ==> markers_on_board(state),
        ensures
            r == book_row_value(self@, self.spec_board_size(), state),
    {
        proof {
            use_type_invariant(self);
        }
        if state.config.board_size != self.board_size {
            return None;
        }
        let (key, _) = canonical_key(state);
        self.row_for_key(&key)
    }

    /// Whether the position's row lists every optimal action.
    pub fn optimal_actions_complete(&self, state: GameState) -> (r: Option<bool>)
        requires
            state.config.board_size == self.spec_board_size() ==> markers_on_board(state),
        ensures
            r == (match book_row_value(self@, self.spec_board_size(), state) {
                Some(value) => Some(value.optimal_actions_complete),
                None => None,
            }),
    {
        match self.row_value(state) {
            Some(value) => Some(value.optimal_actions_complete),
            None => None,
        }
    }

    /// Sparse action labels in the caller's board orientation. An absent
    /// action on an incomplete row is unknown.
    pub fn action_values(&self, state: GameState) -> (r: Option<Vec<GoldenActionValue>>)
        requires
            state.config.board_size == self.spec_board_size() ==> markers_on_board(state),
        ensures
            match book_action_values(self@, self.spec_board_size(), state) {
                Some(values) => r matches Some(v) && v@ == values,
                None => r is None,
            },
            r matches Some(v) ==> forall|k: int| 0 <= k < v@.len() ==> action_on_board(
                #[trigger] v@[k].action,
                state.config.board_size as int,
            ),
    {
        proof {
            use_type_invariant(self);
        }
        if state.config.board_size != self.board_size {
            return None;
        }
        let size = self.board_size;
        let (key, _) = canonical_key(state);
        let index = match self.find(&key) {
            Some(i) => i,
            None => {
                return None;
            },
        };
        proof {
            assert(self@[index as int] == self.entries@[index as int].view());
            assert(labels_on_board(self@[index as int].values, size));
        }
        let candidates = match &self.entries[index].values {
            Some(values) => values,
            None => {
                return None;
            },
        };
        let ghost key_view = key@;
        let mut oriented: Vec<GoldenActionValue> = Vec::new();
        let mut symmetry: u8 = 0;
        while symmetry < 8
            invariant
                symmetry <= 8,
                codec_size(size as int),
                size == state.config.board_size,
                markers_on_board(state),
                key_view == key@,
                key@ == canonical_key_of(state),
                forall|k: int| 0 <= k < candidates@.len() ==> action_on_board(#[trigger] candidates@[k].action, size as int),
                oriented@ == oriented_values(state, key_view, candidates@, symmetry as nat),
                forall|k: int| 0 <= k < oriented@.len() ==> action_on_board(#[trigger] oriented@[k].action, size as int),
            decreases 8 - symmetry,
        {
            let candidate_key = pack_transformed(state, symmetry);
            if same_bytes(&candidate_key, &key) {
                let inverse = inverse_symmetry(symmetry);
                let ghost before = oriented@;
                let mut k: usize = 0;
                while k < candidates.len()
                    invariant
                        k <= candidates.len(),
                        symmetry < 8,
                        inverse == inverse_of(symmetry as int),
                        codec_size(size as int),
                        forall|j: int| 0 <= j < candidates@.len() ==> action_on_board(#[trigger] candidates@[j].action, size as int),
                        oriented@ == add_oriented(before, candidates@, size as int, symmetry as int, k as nat),
                        forall|j: int| 0 <= j < oriented@.len() ==> action_on_board(#[trigger] oriented@[j].action, size as int),
                    decreases candidates.len() - k,
                {
                    let candidate = candidates[k];
                    let value = GoldenActionValue {
                        action: transform_action(candidate.action, size, inverse),
                        outcome: candidate.outcome,
                        distance: candidate.distance,
                    };
                    if !contains_value(&oriented, value) {
                        oriented.push(value);
                    }
                    k = k + 1;
                }
            }
            symmetry = symmetry + 1;
        }
        Some(oriented)
    }

    /// The least-order legal action that the book proves a win, if any.
    pub fn proven_action(&self, state: GameState) -> (r: Option<Action>)
        requires
            state.wf(),
            state.config.board_size == self.spec_board_size() ==> markers_on_board(state),
        ensures
            r == book_proven_action(self@, self.spec_board_size(), state),
    {
        let legal = state.legal_actions();
        if legal.len() == 0 {
            return None;
        }
        let values = match self.action_values(state) {
            Some(values) => values,
            None => {
                return None;
            },
        };
        let mut best: Option<Action> = None;
        let mut i: usize = 0;
        while i < values.len()
            invariant
                i <= values.len(),
                legal@ == state.spec_legal_actions(),
                best == least_winning_action(values@, legal@, i as nat),
            decreases values.len() - i,
        {
            let value = values[i];
            if value.outcome == Some(GoldenOutcome::Win) && contains_action(&legal, value.action) {
                best = match best {
                    None => Some(value.action),
                    Some(action) => if value.action.order() < action.order() {
                        Some(value.action)
                    } else {
                        best
                    },
                };
            }
            i = i + 1;
        }
        best
    }
}

// ---------------------------------------------------------------------------
// The JSON-lines sidecar
// ---------------------------------------------------------------------------

/// One proven action of a JSON sidecar line, as read.
pub struct SidecarAction {
    pub token: Option<String>,
    pub outcome: Option<String>,
    pub distance: Option<u64>,
}

/// One JSON sidecar line, as read: the fields that the format defines, each
/// absent when the line lacks it or gives it another JSON type.
pub struct SidecarRow {
    pub line_number: usize,
    pub schema_version: Option<u64>,
    pub table_family: Option<String>,
    pub key: Option<String>,
    pub outcome: Option<String>,
    pub distance: Option<u64>,
    pub optimal_actions_known: Option<bool>,
    pub proven_actions: Option<Vec<SidecarAction>>,
}

/// The place of a line in a sidecar file, as messages name it.
pub open spec fn line_prefix(path: Seq<char>, line: nat) -> Seq<char> {
    path + ":"@ + decimal_text(line) + ": "@
}

/// The outcome that a sidecar names.
pub open spec fn outcome_named(text: Option<String>) -> Option<GoldenOutcome> {
    match text {
        Some(t) => if t@ == "loss"@ {
            Some(GoldenOutcome::Loss)
        } else if t@ == "draw"@ {
            Some(GoldenOutcome::Draw)
        } else if t@ == "win"@ {
            Some(GoldenOutcome::Win)
        } else {
            None
        },
        None => None,
    }
}

/// A sidecar distance, kept to its low sixteen bits.
pub open spec fn sidecar_distance(distance: Option<u64>) -> Option<u16> {
    match distance {
        Some(d) => Some((d % 65536) as u16),
        None => None,
    }
}

/// The labels of a sidecar line's proven actions, or the first problem.
pub open spec fn sidecar_labels(prefix: Seq<char>, actions: Seq<SidecarAction>, board_size: u8) -> Result<
    Seq<GoldenActionValue>,
    Seq<char>,
>
    decreases actions.len(),
{
    if actions.len() == 0 {
        Ok(Seq::empty())
    } else {
        let first = actions[0];
        match first.token {
            None => Err("golden action is missing token"@),
            Some(token) => match token_action(token@, encode_utf8(token@), board_size) {
                Err(e) => Err(prefix + e),
                Ok(action) => match sidecar_labels(prefix, actions.drop_first(), board_size) {
                    Err(e) => Err(e),
                    Ok(rest) => Ok(
                        seq![
                            GoldenActionValue {
                                action,
                                outcome: outcome_named(first.outcome),
                                distance: sidecar_distance(first.distance),
                            },
                        ] + rest,
                    ),
                },
            },
        }
    }
}

/// The row value of a sidecar line, when it names an outcome.
pub open spec fn sidecar_row_value(line: SidecarRow) -> Option<GoldenRowValue> {
    match outcome_named(line.outcome) {
        Some(outcome) => Some(
            GoldenRowValue {
                outcome,
                distance: sidecar_distance(line.distance),
                optimal_actions_complete: line.optimal_actions_known == Some(true),
            },
        ),
        None => None,
    }
}

/// The rows after merging a line's labels and row value under `key`: labels
/// append to the key's labels, a row value replaces the key's row value.
pub open spec fn merged_rows(
    rows: Seq<BookRowView>,
    key: Seq<u8>,
    labels: Seq<GoldenActionValue>,
    row: Option<GoldenRowValue>,
) -> Seq<BookRowView> {
    match row_index(rows, key) {
        Some(i) => rows.update(
            i,
            BookRowView {
                key,
                values: if labels.len() == 0 {
                    rows[i].values
                } else {
                    Some(
                        match rows[i].values {
                            Some(v) => v,
                            None => Seq::empty(),
                        } + labels,
                    )
                },
                row: if row is Some {
                    row
                } else {
                    rows[i].row
                },
            },
        ),
        None => rows.push(
            BookRowView {
                key,
                values: if labels.len() == 0 {
                    None
                } else {
                    Some(labels)
                },
                row,
            },
        ),
    }
}

/// What merging one sidecar line into a book gives.
pub open spec fn sidecar_line(rows: Seq<BookRowView>, path: Seq<char>, line: SidecarRow, board_size: u8) -> Result<
    Seq<BookRowView>,
    Seq<char>,
> {
    let prefix = line_prefix(path, line.line_number as nat);
    if line.schema_version != Some(1u64) || !(line.table_family matches Some(family) && family@
        == "fresh-frontier-wdl-v1"@) {
        Err(prefix + "unsupported golden action row"@)
    } else {
        match line.key {
            None => Err(prefix + "missing key"@),
            Some(text) => match hex_decoded(encode_utf8(text@)) {
                Err(e) => Err(prefix + e),
                Ok(key) => if key.len() != key_len(board_size as int) {
                    Err(
                        prefix + "key has "@ + decimal_text(key.len()) + " bytes, expected "@
                            + decimal_text(key_len(board_size as int)),
                    )
                } else {
                    match line.proven_actions {
                        None => Err(prefix + "missing provenActions"@),
                        Some(actions) => match sidecar_labels(prefix, actions@, board_size) {
                            Err(e) => Err(e),
                            Ok(labels) => Ok(
                                merged_rows(rows, key, labels, sidecar_row_value(line)),
                            ),
                        },
                    }
                },
            },
        }
    }
}

fn outcome_of_text(text: &Option<String>) -> (r: Option<GoldenOutcome>)
    ensures
        r == outcome_named(*text),
{
    match text {
        Some(t) => if same_text(t.as_str(), "loss") {
            Some(GoldenOutcome::Loss)
        } else if same_text(t.as_str(), "draw") {
            Some(GoldenOutcome::Draw)
        } else if same_text(t.as_str(), "win") {
            Some(GoldenOutcome::Win)
        } else {
            None
        },
        None => None,
    }
}

fn distance_of(distance: Option<u64>) -> (r: Option<u16>)
    ensures
        r == sidecar_distance(distance),
{
    match distance {
        Some(d) => Some((d % 65536) as u16),
        None => None,
    }
}

fn prefixed_message(prefix: &String, message: &str) -> (r: String)
    ensures
        r@ == prefix@ + message@,
{
    String::from_str(prefix.as_str()).concat(message)
}

impl GoldenActionBook {
    /// Merge one line of a JSON-lines sidecar into the book. On an error the
    /// book is left as it was.
    pub fn merge_sidecar_row(&mut self, path: &str, line: &SidecarRow) -> (r: Result<(), String>)
        ensures
            final(self).spec_board_size() == old(self).spec_board_size(),
            match sidecar_line(old(self)@, path@, *line, old(self).spec_board_size()) {
                Ok(rows) => r is Ok && final(self)@ == rows,
                Err(e) => r matches Err(m) && m@ == e && final(self)@ == old(self)@,
            },
    {
        proof {
            use_type_invariant(&*self);
        }
        let board_size = self.board_size;
        let prefix = String::from_str(path).concat(":").concat(
            decimal_string_u64(line.line_number as u64).as_str(),
        ).concat(": ");
        proof {
            assert(prefix@ =~= line_prefix(path@, line.line_number as nat));
        }
        let supported = match &line.table_family {
            Some(family) => same_text(family.as_str(), "fresh-frontier-wdl-v1"),
            None => false,
        };
        if line.schema_version != Some(1u64) || !supported {
            return Err(prefixed_message(&prefix, "unsupported golden action row"));
        }
        let text = match &line.key {
            Some(text) => text,
            None => {
                return Err(prefixed_message(&prefix, "missing key"));
            },
        };
        let key = match decode_hex(text.as_str()) {
            Ok(key) => key,
            Err(e) => {
                return Err(prefixed_message(&prefix, e.as_str()));
            },
        };
        let width = key_len_of(board_size);
        if key.len() != width {
            let message = prefixed_message(&prefix, "key has ").concat(
                decimal_string_u64(key.len() as u64).as_str(),
            ).concat(" bytes, expected ").concat(decimal_string_u64(width as u64).as_str());
            proof {
                assert(message@ =~= prefix@ + "key has "@ + decimal_text(key@.len()) + " bytes, expected "@
                    + decimal_text(key_len(board_size as int)));
            }
            return Err(message);
        }
        let actions = match &line.proven_actions {
            Some(actions) => actions,
            None => {
                return Err(prefixed_message(&prefix, "missing provenActions"));
            },
        };
        let ghost whole = sidecar_labels(prefix@, actions@, board_size);
        let ghost result = sidecar_line(old(self)@, path@, *line, board_size);
        proof {
            assert(result == (match whole {
                Err(e) => Err(e),
                Ok(labels) => Ok::<Seq<BookRowView>, Seq<char>>(
                    merged_rows(old(self)@, key@, labels, sidecar_row_value(*line)),
                ),
            }));
        }
        let mut labels: Vec<GoldenActionValue> = Vec::new();
        let mut k: usize = 0;
        proof {
            assert(actions@.skip(0) =~= actions@);
        }
        while k < actions.len()
            invariant
                k <= actions.len(),
                codec_size(board_size as int),
                whole == sidecar_labels(prefix@, actions@, board_size),
                self@ == old(self)@,
                self.spec_board_size() == board_size,
                old(self).spec_board_size() == board_size,
                result == sidecar_line(old(self)@, path@, *line, board_size),
                result == (match whole {
                    Err(e) => Err(e),
                    Ok(labels) => Ok::<Seq<BookRowView>, Seq<char>>(
                        merged_rows(old(self)@, key@, labels, sidecar_row_value(*line)),
                    ),
                }),
                whole == (match sidecar_labels(prefix@, actions@.skip(k as int), board_size) {
                    Ok(rest) => Ok::<Seq<GoldenActionValue>, Seq<char>>(labels@ + rest),
                    Err(e) => Err(e),
                }),
                forall|j: int| 0 <= j < labels.len() ==> action_on_board(#[trigger] labels@[j].action, board_size as int),
            decreases actions.len() - k,
        {
            let record = &actions[k];
            proof {
                assert(actions@.skip(k as int).drop_first() =~= actions@.skip(k as int + 1));
                assert(actions@.skip(k as int)[0] == actions@[k as int]);
            }
            let token = match &record.token {
                Some(token) => token,
                None => {
                    let message = String::from_str("golden action is missing token");
                    proof {
                        assert(sidecar_labels(prefix@, actions@.skip(k as int), board_size) == Err::<
                            Seq<GoldenActionValue>,
                            Seq<char>,
                        >(message@));
                    }
                    return Err(message);
                },
            };
            let action = match decode_action(token.as_str(), board_size) {
                Ok(action) => action,
                Err(e) => {
                    let message = prefixed_message(&prefix, e.as_str());
                    proof {
                        assert(sidecar_labels(prefix@, actions@.skip(k as int), board_size) == Err::<
                            Seq<GoldenActionValue>,
                            Seq<char>,
                        >(message@));
                    }
                    return Err(message);
                },
            };
            let value = GoldenActionValue {
                action,
                outcome: outcome_of_text(&record.outcome),
                distance: distance_of(record.distance),
            };
            proof {
                match sidecar_labels(prefix@, actions@.skip(k as int + 1), board_size) {
                    Ok(rest) => {
                        assert(labels@ + (seq![value] + rest) =~= labels@.push(value) + rest);
                    },
                    Err(_) => {},
                }
            }
            labels.push(value);
            k = k + 1;
        }
        proof {
            assert(actions@.skip(actions.len() as int) =~= Seq::<SidecarAction>::empty());
            assert(labels@ + Seq::<GoldenActionValue>::empty() =~= labels@);
        }
        let row = match outcome_of_text(&line.outcome) {
            Some(outcome) => Some(
                GoldenRowValue {
                    outcome,
                    distance: distance_of(line.distance),
                    optimal_actions_complete: line.optimal_actions_known == Some(true),
                },
            ),
            None => None,
        };
        self.merge(key, labels, row);
        Ok(())
    }

    /// Merge labels and a row value under a key of the book's width.
    fn merge(&mut self, key: Vec<u8>, labels: Vec<GoldenActionValue>, row: Option<GoldenRowValue>)
        requires
            key@.len() == key_len(old(self).spec_board_size() as int),
            forall|j: int| 0 <= j < labels@.len() ==> action_on_board(#[trigger] labels@[j].action, old(self).spec_board_size() as int),
        ensures
            final(self).spec_board_size() == old(self).spec_board_size(),
            final(self)@ == merged_rows(old(self)@, key@, labels@, row),
    {
        proof {
            use_type_invariant(&*self);
        }
        let ghost before = self@;
        match self.find(&key) {
            Some(i) => {
                proof {
                    assert(self@[i as int] == self.entries@[i as int].view());
                }
                let values = if labels.len() == 0 {
                    match &self.entries[i].values {
                        Some(existing) => Some(copy_values(existing)),
                        None => None,
                    }
                } else {
                    let mut all = match &self.entries[i].values {
                        Some(existing) => copy_values(existing),
                        None => Vec::new(),
                    };
                    let ghost start = all@;
                    let mut k: usize = 0;
                    while k < labels.len()
                        invariant
                            k <= labels.len(),
                            all@ == start + labels@.take(k as int),
                        decreases labels.len() - k,
                    {
                        all.push(labels[k]);
                        k = k + 1;
                        proof {
                            assert(all@ =~= start + labels@.take(k as int));
                        }
                    }
                    proof {
                        assert(labels@.take(labels.len() as int) =~= labels@);
                    }
                    Some(all)
                };
                let kept = if row.is_some() {
                    row
                } else {
                    self.entries[i].row
                };
                let entry = BookEntry { key, values, row: kept };
                let ghost view = entry.view();
                proof {
                    let updated = before.update(i as int, view);
                    assert(updated == merged_rows(before, key@, labels@, row));
                    assert forall|j: int| 0 <= j < updated.len() implies labels_on_board(
                        (#[trigger] updated[j]).values,
                        self.board_size,
                    ) by {
                        if j == i {
                            assert(labels_on_board(before[j].values, self.board_size));
                        } else {
                            assert(updated[j] == before[j]);
                        }
                    }
                    assert forall|a: int, b: int| 0 <= a < b < updated.len() implies (#[trigger] updated[a]).key != (#[trigger] updated[b]).key by {
                        assert(updated[a].key == before[a].key);
                        assert(updated[b].key == before[b].key);
                    }
                }
                let mut entries: Vec<BookEntry> = Vec::new();
                std::mem::swap(&mut entries, &mut self.entries);
                entries.set(i, entry);
                proof {
                    assert(book_rows(entries@) =~= before.update(i as int, view));
                }
                self.entries = entries;
            },
            None => {
                let values = if labels.len() == 0 {
                    None
                } else {
                    Some(labels)
                };
                let entry = BookEntry { key, values, row };
                let ghost view = entry.view();
                proof {
                    let pushed = before.push(view);
                    assert forall|a: int, b: int| 0 <= a < b < pushed.len() implies (#[trigger] pushed[a]).key != (#[trigger] pushed[b]).key by {
                        if b == before.len() {
                            assert(before[a].key != view.key);
                        }
                    }
                    assert forall|j: int| 0 <= j < pushed.len() implies labels_on_board(
                        (#[trigger] pushed[j]).values,
                        self.board_size,
                    ) by {
                        if j < before.len() {
                            assert(pushed[j] == before[j]);
                        }
                    }
                }
                let mut entries: Vec<BookEntry> = Vec::new();
                std::mem::swap(&mut entries, &mut self.entries);
                entries.push(entry);
                proof {
                    assert(book_rows(entries@) =~= before.push(view));
                }
                self.entries = entries;
            },
        }
    }
}

/// The bytes that a canonical key's hexadecimal spelling gives, as match
/// tooling reads keys: at least one byte, two digits a byte.
pub open spec fn key_hex_decoded(bytes: Seq<u8>) -> Result<Seq<u8>, Seq<char>> {
    if bytes.len() == 0 || bytes.len() % 2 != 0 {
        Err("canonical key must contain a non-empty even number of hex digits"@)
    } else if exists|i: int| 0 <= i < bytes.len() && #[trigger] hex_value(bytes[i]) is None {
        Err("canonical key contains a non-hex digit"@)
    } else {
        hex_decoded(bytes)
    }
}

/// Decode a canonical key written in hexadecimal.
pub fn decode_key_hex(value: &str) -> (r: Result<Vec<u8>, String>)
    ensures
        match r {
            Ok(bytes) => key_hex_decoded(value.spec_bytes()) == Ok::<Seq<u8>, Seq<char>>(bytes@),
            Err(e) => key_hex_decoded(value.spec_bytes()) == Err::<Seq<u8>, Seq<char>>(e@),
        },
{
    let chars = value.as_bytes();
    if chars.len() == 0 || chars.len() % 2 != 0 {
        return Err(String::from_str("canonical key must contain a non-empty even number of hex digits"));
    }
    let mut i: usize = 0;
    while i < chars.len()
        invariant
            chars@ == value.spec_bytes(),
            chars.len() > 0,
            chars.len() % 2 == 0,
            i <= chars.len(),
            forall|j: int| 0 <= j < i ==> #[trigger] hex_value(chars@[j]) is Some,
        decreases chars.len() - i,
    {
        if hex_digit(chars[i]).is_err() {
            proof {
                assert(hex_value(value.spec_bytes()[i as int]) is None);
            }
            return Err(String::from_str("canonical key contains a non-hex digit"));
        }
        i = i + 1;
    }
    decode_hex(value)
}

} // verus!
