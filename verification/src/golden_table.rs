//! Golden tables held in memory: fixed-width rows of a canonical key and an
//! outcome byte, sorted by key and searched by bisection, and lookups that
//! pair a table with its action book, alone or in priority layers.

use vstd::prelude::*;

use crate::golden::{
    canonical_key, canonical_key_of, codec_size, key_bytes_for_board_size, key_len,
    lemma_lex_less_irreflexive, lemma_lex_less_transitive, lex_less, markers_on_board,
    GoldenOutcome, WIN,
};
use crate::golden_book::{
    book_action_values, book_proven_action, book_row_value, parsed_book, GoldenActionBook,
    GoldenActionValue, GoldenRowValue,
};
use crate::rules::{Action, GameState};
use crate::text::{decimal_string_u64, decimal_text};

verus! {

/// Counters of how often a search consulted exact data.
#[derive(Clone, Copy, Debug, PartialEq, Eq, Structural)]
pub struct GoldenLookupStats {
    pub table_hits: u64,
    pub action_hits: u64,
}

/// Bytes of one table row on a `board_size` board.
pub open spec fn row_width(board_size: u8) -> nat {
    key_len(board_size as int) + 1
}

/// Number of rows of a table.
pub open spec fn table_rows(bytes: Seq<u8>, board_size: u8) -> nat {
    bytes.len() / row_width(board_size)
}

/// Key of row `i`.
pub open spec fn row_key(bytes: Seq<u8>, board_size: u8, i: int) -> Seq<u8> {
    bytes.subrange(i * row_width(board_size), i * row_width(board_size) + key_len(board_size as int))
}

/// Outcome byte of row `i`.
pub open spec fn row_byte(bytes: Seq<u8>, board_size: u8, i: int) -> u8 {
    bytes[i * row_width(board_size) + key_len(board_size as int)]
}

/// The rows' keys increase strictly.
pub open spec fn table_sorted(bytes: Seq<u8>, board_size: u8) -> bool {
    forall|i: int, j: int|
        0 <= i < j < table_rows(bytes, board_size) ==> lex_less(
            #[trigger] row_key(bytes, board_size, i),
            #[trigger] row_key(bytes, board_size, j),
        )
}

/// The outcome that a table stores under `key`, if a row holds the key.
pub open spec fn table_entry(bytes: Seq<u8>, board_size: u8, key: Seq<u8>) -> Option<GoldenOutcome> {
    if exists|i: int| 0 <= i < table_rows(bytes, board_size) && row_key(bytes, board_size, i) == key {
        GoldenOutcome::of_code(
            row_byte(
                bytes,
                board_size,
                choose|i: int| 0 <= i < table_rows(bytes, board_size) && row_key(bytes, board_size, i) == key,
            ),
        )
    } else {
        None
    }
}

/// The positions that a table of this namespace can hold.
/// What bisection over rows `low..high` answers for `key`, whether or not
/// the rows are sorted: compare with the middle row, go right past a smaller
/// row, left before a larger one, and read the outcome byte of an equal one.
pub open spec fn row_probe(bytes: Seq<u8>, board_size: u8, key: Seq<u8>, low: int, high: int) -> Option<
    GoldenOutcome,
>
    decreases high - low,
{
    if low >= high {
        None
    } else {
        let middle = low + (high - low) / 2;
        let row = row_key(bytes, board_size, middle);
        if lex_less(row, key) {
            row_probe(bytes, board_size, key, middle + 1, high)
        } else if lex_less(key, row) {
            row_probe(bytes, board_size, key, low, middle)
        } else {
            GoldenOutcome::of_code(row_byte(bytes, board_size, middle))
        }
    }
}

/// What a table answers for `key`: bisection over all its rows, nothing for
/// a key of the wrong length.
pub open spec fn key_probe(bytes: Seq<u8>, board_size: u8, key: Seq<u8>) -> Option<GoldenOutcome> {
    if key.len() != key_len(board_size as int) {
        None
    } else {
        row_probe(bytes, board_size, key, 0, table_rows(bytes, board_size) as int)
    }
}

/// What a table answers for a position: its canonical key's probe inside the
/// table's namespace, nothing outside.
pub open spec fn table_probe(bytes: Seq<u8>, board_size: u8, reserve_per_player: u8, state: GameState) -> Option<
    GoldenOutcome,
> {
    if in_namespace(state, board_size, reserve_per_player) {
        key_probe(bytes, board_size, canonical_key_of(state))
    } else {
        None
    }
}

pub open spec fn in_namespace(state: GameState, board_size: u8, reserve_per_player: u8) -> bool {
    &&& state.config.board_size == board_size
    &&& state.config.reserve_per_player == reserve_per_player
    &&& board_size <= 7
}

/// A golden shard held in memory.
pub struct MemoryGoldenTable {
    bytes: Vec<u8>,
    board_size: u8,
    reserve_per_player: u8,
    key_bytes: usize,
    row_bytes: usize,
}

impl MemoryGoldenTable {
    pub closed spec fn view(&self) -> Seq<u8> {
        self.bytes@
    }

    pub closed spec fn spec_board_size(&self) -> u8 {
        self.board_size
    }

    pub closed spec fn spec_reserve(&self) -> u8 {
        self.reserve_per_player
    }

    #[verifier::type_invariant]
    closed spec fn inv(&self) -> bool {
        &&& codec_size(self.board_size as int)
        &&& self.key_bytes == key_len(self.board_size as int)
        &&& self.row_bytes == self.key_bytes + 1
        &&& self.bytes@.len() % (self.row_bytes as nat) == 0
    }

    /// Take a copy of a shard's bytes for a board size and reserve.
    pub fn from_bytes(bytes: &[u8], board_size: u8, reserve_per_player: u8) -> (r: Result<
        Self,
        String,
    >)
        ensures
            r is Ok <==> codec_size(board_size as int) && bytes@.len() % row_width(board_size)
                == 0,
            r matches Ok(table) ==> table@ == bytes@ && table.spec_board_size() == board_size
                && table.spec_reserve() == reserve_per_player,
            r matches Err(e) ==> e@ == (if !codec_size(board_size as int) {
                "golden key codec supports board sizes 3 through 7"@
            } else {
                "memory golden shard is not a multiple of "@ + decimal_text(row_width(board_size))
                    + " bytes"@
            }),
    {
        let key_bytes = match key_bytes_for_board_size(board_size) {
            Ok(n) => n,
            Err(e) => {
                return Err(e);
            },
        };
        proof {
            crate::golden::lemma_codec_widths(board_size as int);
        }
        let row_bytes = key_bytes + 1;
        if bytes.len() % row_bytes != 0 {
            let message = String::from_str("memory golden shard is not a multiple of ").concat(
                decimal_string_u64(row_bytes as u64).as_str(),
            ).concat(" bytes");
            return Err(message);
        }
        let copy = copy_all(bytes);
        Ok(MemoryGoldenTable { bytes: copy, board_size, reserve_per_player, key_bytes, row_bytes })
    }

    /// Number of rows.
    pub fn rows(&self) -> (r: u64)
        ensures
            r == table_rows(self@, self.spec_board_size()),
    {
        proof {
            use_type_invariant(self);
        }
        (self.bytes.len() / self.row_bytes) as u64
    }

    /// The outcome stored under `key`. Bisection finds it when the rows are
    /// sorted; whatever it returns is the byte of a row that holds the key.
    pub fn lookup_key(&self, key: &[u8]) -> (r: Option<GoldenOutcome>)
        ensures
            key@.len() != key_len(self.spec_board_size() as int) ==> r is None,
            r matches Some(outcome) ==> exists|i: int|
                0 <= i < table_rows(self@, self.spec_board_size()) && row_key(
                    self@,
                    self.spec_board_size(),
                    i,
                ) == key@ && GoldenOutcome::of_code(row_byte(self@, self.spec_board_size(), i))
                    == Some(outcome),
            table_sorted(self@, self.spec_board_size()) ==> r == table_entry(
                self@,
                self.spec_board_size(),
                key@,
            ),
            r == key_probe(self@, self.spec_board_size(), key@),
    {
        proof {
            use_type_invariant(self);
            crate::golden::lemma_codec_widths(self.board_size as int);
        }
        let ghost bytes = self@;
        let ghost board = self.board_size;
        proof {
            lemma_rows_fit(bytes, board);
        }
        if key.len() != self.key_bytes {
            proof {
                assert forall|i: int| 0 <= i < table_rows(bytes, board) implies row_key(bytes, board, i) != key@ by {
                    assert(row_key(bytes, board, i).len() == key_len(board as int));
                }
            }
            return None;
        }
        let width = self.row_bytes;
        let key_bytes = self.key_bytes;
        let mut low: usize = 0;
        let mut high: usize = self.bytes.len() / width;
        proof {
            assert(high == table_rows(bytes, board));
        }
        while low < high
            invariant
                bytes == self@,
                board == self.spec_board_size(),
                width == row_width(board),
                key_bytes == key_len(board as int),
                key_bytes <= 14,
                key@.len() == key_bytes,
                low <= high <= table_rows(bytes, board),
                table_rows(bytes, board) * width <= bytes.len(),
                bytes.len() == self.bytes.len(),
                table_sorted(bytes, board) ==> forall|i: int|
                    0 <= i < low ==> lex_less(#[trigger] row_key(bytes, board, i), key@),
                table_sorted(bytes, board) ==> forall|i: int|
                    high <= i < table_rows(bytes, board) ==> lex_less(key@, #[trigger] row_key(bytes, board, i)),
                row_probe(bytes, board, key@, low as int, high as int) == key_probe(bytes, board, key@),
            decreases high - low,
        {
            let middle = low + (high - low) / 2;
            proof {
                assert(middle * width + width <= table_rows(bytes, board) * width) by (nonlinear_arith)
                    requires
                        middle < table_rows(bytes, board),
                        width >= 1,
                ;
            }
            let start = middle * width;
            let order = compare_with(&self.bytes, start, key_bytes, key);
            proof {
                assert(row_key(bytes, board, middle as int) == bytes.subrange(
                    start as int,
                    start + key_bytes,
                ));
            }
            if order < 0 {
                proof {
                    if table_sorted(bytes, board) {
                        assert forall|i: int| 0 <= i < middle + 1 implies lex_less(
                            #[trigger] row_key(bytes, board, i),
                            key@,
                        ) by {
                            if i < middle {
                                lemma_lex_less_transitive(
                                    row_key(bytes, board, i),
                                    row_key(bytes, board, middle as int),
                                    key@,
                                );
                            }
                        }
                    }
                }
                low = middle + 1;
            } else if order > 0 {
                proof {
                    if table_sorted(bytes, board) {
                        assert forall|i: int| middle <= i < table_rows(bytes, board) implies lex_less(
                            key@,
                            #[trigger] row_key(bytes, board, i),
                        ) by {
                            if i > middle {
                                lemma_lex_less_transitive(
                                    key@,
                                    row_key(bytes, board, middle as int),
                                    row_key(bytes, board, i),
                                );
                            }
                        }
                    }
                }
                high = middle;
            } else {
                let byte = self.bytes[start + key_bytes];
                proof {
                    assert(row_byte(bytes, board, middle as int) == byte);
                    if table_sorted(bytes, board) {
                        assert forall|i: int|
                            0 <= i < table_rows(bytes, board) && row_key(bytes, board, i)
                                == key@ implies i == middle by {
                            if i < middle {
                                assert(lex_less(row_key(bytes, board, i), row_key(bytes, board, middle as int)));
                                lemma_lex_less_irreflexive(key@);
                            } else if i > middle {
                                assert(lex_less(row_key(bytes, board, middle as int), row_key(bytes, board, i)));
                                lemma_lex_less_irreflexive(key@);
                            }
                        }
                    }
                }
                return GoldenOutcome::from_byte(byte);
            }
        }
        proof {
            if table_sorted(bytes, board) {
                assert forall|i: int| 0 <= i < table_rows(bytes, board) implies row_key(bytes, board, i) != key@ by {
                    lemma_lex_less_irreflexive(key@);
                }
            }
        }
        None
    }

    /// The outcome of a position of the table's namespace.
    pub fn lookup(&self, state: GameState) -> (r: Option<GoldenOutcome>)
        requires
            in_namespace(state, self.spec_board_size(), self.spec_reserve()) ==> markers_on_board(
                state,
            ),
        ensures
            !in_namespace(state, self.spec_board_size(), self.spec_reserve()) ==> r is None,
            r matches Some(outcome) ==> exists|i: int|
                0 <= i < table_rows(self@, self.spec_board_size()) && row_key(
                    self@,
                    self.spec_board_size(),
                    i,
                ) == canonical_key_of(state) && GoldenOutcome::of_code(
                    row_byte(self@, self.spec_board_size(), i),
                ) == Some(outcome),
            table_sorted(self@, self.spec_board_size()) ==> r == table_answer(
                self@,
                self.spec_board_size(),
                self.spec_reserve(),
                state,
            ),
            r == table_probe(self@, self.spec_board_size(), self.spec_reserve(), state),
    {
        proof {
            use_type_invariant(self);
        }
        if !(state.config.board_size == self.board_size && state.config.reserve_per_player
            == self.reserve_per_player && self.board_size <= 7) {
            return None;
        }
        let (key, _) = canonical_key(state);
        self.lookup_key(key.as_slice())
    }
}

/// What a sorted table answers for a position.
pub open spec fn table_answer(bytes: Seq<u8>, board_size: u8, reserve_per_player: u8, state: GameState) -> Option<
    GoldenOutcome,
> {
    if in_namespace(state, board_size, reserve_per_player) {
        table_entry(bytes, board_size, canonical_key_of(state))
    } else {
        None
    }
}

/// The rows of a table lie inside its bytes.
proof fn lemma_rows_fit(bytes: Seq<u8>, board_size: u8)
    requires
        codec_size(board_size as int),
    ensures
        table_rows(bytes, board_size) * row_width(board_size) <= bytes.len(),
        forall|i: int|
            0 <= i < table_rows(bytes, board_size) ==> #[trigger] row_key(bytes, board_size, i).len()
                == key_len(board_size as int) && (i + 1) * row_width(board_size) <= bytes.len(),
{
    let w = row_width(board_size) as int;
    let n = bytes.len() as int;
    let rows = table_rows(bytes, board_size) as int;
    vstd::arithmetic::div_mod::lemma_fundamental_div_mod(n, w);
    assert(rows * w <= n) by (nonlinear_arith)
        requires
            n == w * (n / w) + n % w,
            n % w >= 0,
            rows == n / w,
    ;
    assert forall|i: int| 0 <= i < rows implies #[trigger] row_key(bytes, board_size, i).len()
        == key_len(board_size as int) && (i + 1) * w <= n by {
        assert((i + 1) * w <= rows * w) by (nonlinear_arith)
            requires
                i + 1 <= rows,
                w >= 1,
        ;
        assert(i * w >= 0) by (nonlinear_arith)
            requires
                i >= 0,
                w >= 1,
        ;
        assert((i + 1) * w == i * w + w) by (nonlinear_arith);
    }
}

/// Compare the `len` bytes of `bytes` from `start` with `key`: negative when
/// they sort first, zero when equal, positive when they sort after.
fn compare_with(bytes: &Vec<u8>, start: usize, len: usize, key: &[u8]) -> (r: i8)
    requires
        start + len <= bytes@.len(),
        key@.len() == len,
    ensures
        r < 0 <==> lex_less(bytes@.subrange(start as int, start + len), key@),
        r == 0 <==> bytes@.subrange(start as int, start + len) == key@,
        r > 0 <==> lex_less(key@, bytes@.subrange(start as int, start + len)),
{
    let ghost row = bytes@.subrange(start as int, start + len);
    let mut i: usize = 0;
    proof {
        assert(row.skip(0) =~= row);
        assert(key@.skip(0) =~= key@);
    }
    while i < len
        invariant
            i <= len,
            start + len <= bytes@.len(),
            start + len <= bytes.len(),
            key@.len() == len,
            row == bytes@.subrange(start as int, start + len),
            forall|j: int| 0 <= j < i ==> row[j] == key@[j],
            lex_less(row, key@) == lex_less(row.skip(i as int), key@.skip(i as int)),
            lex_less(key@, row) == lex_less(key@.skip(i as int), row.skip(i as int)),
        decreases len - i,
    {
        proof {
            assert(row.skip(i as int).drop_first() =~= row.skip(i as int + 1));
            assert(key@.skip(i as int).drop_first() =~= key@.skip(i as int + 1));
            assert(row[i as int] == bytes@[start + i]);
        }
        let a = bytes[start + i];
        let b = key[i];
        if a < b {
            return -1;
        }
        if a > b {
            return 1;
        }
        i = i + 1;
    }
    proof {
        assert(row =~= key@);
        lemma_lex_less_irreflexive(row);
    }
    0
}

fn copy_all(bytes: &[u8]) -> (r: Vec<u8>)
    ensures
        r@ == bytes@,
{
    let mut r: Vec<u8> = Vec::new();
    let mut i: usize = 0;
    while i < bytes.len()
        invariant
            i <= bytes.len(),
            r@ == bytes@.take(i as int),
        decreases bytes.len() - i,
    {
        r.push(bytes[i]);
        i = i + 1;
        proof {
            assert(r@ =~= bytes@.take(i as int));
        }
    }
    proof {
        assert(bytes@.take(bytes.len() as int) =~= bytes@);
    }
    r
}

// ---------------------------------------------------------------------------
// A table with its action book
// ---------------------------------------------------------------------------

/// A golden table and, optionally, its action book.
pub struct MemoryGoldenLookup {
    pub table: MemoryGoldenTable,
    pub actions: Option<GoldenActionBook>,
}

/// What stops a table and a sidecar from opening, if anything.
pub open spec fn open_problem(
    table_bytes: Seq<u8>,
    sidecar_bytes: Option<Seq<u8>>,
    board_size: u8,
) -> Option<Seq<char>> {
    if !codec_size(board_size as int) {
        Some("golden key codec supports board sizes 3 through 7"@)
    } else if table_bytes.len() % row_width(board_size) != 0 {
        Some(
            "memory golden shard is not a multiple of "@ + decimal_text(row_width(board_size))
                + " bytes"@,
        )
    } else {
        match sidecar_bytes {
            Some(sidecar) => if sidecar.len() > 0 {
                match parsed_book(sidecar, board_size) {
                    Err(e) => Some(e),
                    Ok(_) => None,
                }
            } else {
                None
            },
            None => None,
        }
    }
}

pub open spec fn slice_view(bytes: Option<&[u8]>) -> Option<Seq<u8>> {
    match bytes {
        Some(b) => Some(b@),
        None => None,
    }
}

impl MemoryGoldenLookup {
    /// The positions whose lookups compute a canonical key: those whose
    /// namespace matches the table or the book.
    pub open spec fn ready_for(&self, state: GameState) -> bool {
        &&& in_namespace(state, self.table.spec_board_size(), self.table.spec_reserve())
            ==> markers_on_board(state)
        &&& (self.actions matches Some(book) && state.config.board_size == book.spec_board_size())
            ==> markers_on_board(state)
    }

    /// The table's answer for a position, when its rows are sorted.
    pub open spec fn answer(&self, state: GameState) -> Option<GoldenOutcome> {
        table_answer(self.table@, self.table.spec_board_size(), self.table.spec_reserve(), state)
    }

    pub open spec fn sorted(&self) -> bool {
        table_sorted(self.table@, self.table.spec_board_size())
    }

    /// The table's answer for a position, whether or not its rows are sorted.
    pub open spec fn probed(&self, state: GameState) -> Option<GoldenOutcome> {
        table_probe(self.table@, self.table.spec_board_size(), self.table.spec_reserve(), state)
    }

    /// The proven action for any table: the book's, when the table answers
    /// a win.
    pub open spec fn proven_probed(&self, state: GameState) -> Option<Action> {
        if self.probed(state) != Some(GoldenOutcome::Win) {
            None
        } else {
            match self.actions {
                Some(book) => book_proven_action(book@, book.spec_board_size(), state),
                None => None,
            }
        }
    }

    /// The proven action of a sorted lookup: the book's, for a table win.
    pub open spec fn proven(&self, state: GameState) -> Option<Action> {
        if self.answer(state) != Some(GoldenOutcome::Win) {
            None
        } else {
            match self.actions {
                Some(book) => book_proven_action(book@, book.spec_board_size(), state),
                None => None,
            }
        }
    }

    /// The row value of a sorted lookup: the book's, for a position the table holds.
    pub open spec fn row(&self, state: GameState) -> Option<GoldenRowValue> {
        if self.answer(state) is None {
            None
        } else {
            match self.actions {
                Some(book) => book_row_value(book@, book.spec_board_size(), state),
                None => None,
            }
        }
    }

    /// The labels of a sorted lookup: the book's, for a position the table holds.
    pub open spec fn labels(&self, state: GameState) -> Option<Seq<GoldenActionValue>> {
        if self.answer(state) is None {
            None
        } else {
            match self.actions {
                Some(book) => book_action_values(book@, book.spec_board_size(), state),
                None => None,
            }
        }
    }

    /// Open a table and, when given and not empty, its action book.
    pub fn open_bytes(
        table_bytes: &[u8],
        sidecar_bytes: Option<&[u8]>,
        board_size: u8,
        reserve_per_player: u8,
    ) -> (r: Result<Self, String>)
        ensures
            r is Ok <==> open_problem(table_bytes@, slice_view(sidecar_bytes), board_size) is None,
            r matches Err(e) ==> open_problem(table_bytes@, slice_view(sidecar_bytes), board_size)
                == Some(e@),
            r matches Ok(lookup) ==> {
                &&& lookup.table@ == table_bytes@
                &&& lookup.table.spec_board_size() == board_size
                &&& lookup.table.spec_reserve() == reserve_per_player
                &&& match sidecar_bytes {
                    Some(sidecar) => if sidecar@.len() > 0 {
                        lookup.actions matches Some(book) && parsed_book(sidecar@, board_size)
                            == Ok::<Seq<crate::golden_book::BookRowView>, Seq<char>>(book@)
                            && book.spec_board_size() == board_size
                    } else {
                        lookup.actions is None
                    },
                    None => lookup.actions is None,
                }
            },
    {
        let table = match MemoryGoldenTable::from_bytes(table_bytes, board_size, reserve_per_player) {
            Ok(table) => table,
            Err(e) => {
                return Err(e);
            },
        };
        let actions = match sidecar_bytes {
            Some(bytes) => if bytes.len() > 0 {
                match GoldenActionBook::from_bytes(bytes, board_size) {
                    Ok(book) => Some(book),
                    Err(e) => {
                        return Err(e);
                    },
                }
            } else {
                None
            },
            None => None,
        };
        Ok(MemoryGoldenLookup { table, actions })
    }

    /// The table's outcome for a position.
    pub fn lookup(&self, state: GameState) -> (r: Option<GoldenOutcome>)
        requires
            self.ready_for(state),
        ensures
            r matches Some(outcome) ==> exists|i: int|
                0 <= i < table_rows(self.table@, self.table.spec_board_size()) && row_key(
                    self.table@,
                    self.table.spec_board_size(),
                    i,
                ) == canonical_key_of(state) && GoldenOutcome::of_code(
                    row_byte(self.table@, self.table.spec_board_size(), i),
                ) == Some(outcome),
            self.sorted() ==> r == self.answer(state),
            r == self.probed(state),
    {
        self.table.lookup(state)
    }

    /// The book's proven action for a position that the table proves won.
    pub fn proven_action(&self, state: GameState) -> (r: Option<Action>)
        requires
            state.wf(),
            self.ready_for(state),
        ensures
            r matches Some(a) ==> self.actions matches Some(book) && book_proven_action(
                book@,
                book.spec_board_size(),
                state,
            ) == Some(a),
            self.sorted() ==> r == self.proven(state),
            r == self.proven_probed(state),
    {
        if self.lookup(state) != Some(GoldenOutcome::Win) {
            return None;
        }
        match &self.actions {
            Some(book) => book.proven_action(state),
            None => None,
        }
    }

    /// The book's row value for a position that the table holds.
    pub fn row_value(&self, state: GameState) -> (r: Option<GoldenRowValue>)
        requires
            self.ready_for(state),
        ensures
            r is Some ==> (self.actions matches Some(book) && book_row_value(
                book@,
                book.spec_board_size(),
                state,
            ) == r),
            self.sorted() ==> r == self.row(state),
    {
        if self.lookup(state).is_none() {
            return None;
        }
        match &self.actions {
            Some(book) => book.row_value(state),
            None => None,
        }
    }

    /// The book's labels for a position that the table holds.
    pub fn action_values(&self, state: GameState) -> (r: Option<Vec<GoldenActionValue>>)
        requires
            self.ready_for(state),
        ensures
            r matches Some(values) ==> self.actions matches Some(book) && book_action_values(
                book@,
                book.spec_board_size(),
                state,
            ) == Some(values@),
            self.sorted() ==> match self.labels(state) {
                Some(values) => r matches Some(v) && v@ == values,
                None => r is None,
            },
    {
        if self.lookup(state).is_none() {
            return None;
        }
        match &self.actions {
            Some(book) => book.action_values(state),
            None => None,
        }
    }
}

// ---------------------------------------------------------------------------
// Layers
// ---------------------------------------------------------------------------

/// Golden lookups in priority order: the first layer that holds a position
/// owns it; later layers are consulted only when it is absent.
pub struct MemoryGoldenLookupLayers {
    layers: Vec<MemoryGoldenLookup>,
}

/// The first of the first `n` layers whose sorted table holds the position.
pub open spec fn first_holding(layers: Seq<MemoryGoldenLookup>, state: GameState, n: nat) -> Option<int>
    decreases n,
{
    if n == 0 {
        None
    } else {
        match first_holding(layers, state, (n - 1) as nat) {
            Some(i) => Some(i),
            None => if layers[n - 1].answer(state) is Some {
                Some(n - 1)
            } else {
                None
            },
        }
    }
}

/// Total rows of the first `n` layers.
pub open spec fn rows_upto(layers: Seq<MemoryGoldenLookup>, n: nat) -> nat
    decreases n,
{
    if n == 0 {
        0
    } else {
        rows_upto(layers, (n - 1) as nat) + table_rows(
            layers[n - 1].table@,
            layers[n - 1].table.spec_board_size(),
        )
    }
}

/// The first layer that a list of table and sidecar byte pairs cannot open.
pub open spec fn first_open_problem(
    sources: Seq<(&[u8], Option<&[u8]>)>,
    board_size: u8,
    n: nat,
) -> Option<Seq<char>>
    decreases n,
{
    if n == 0 {
        None
    } else {
        match first_open_problem(sources, board_size, (n - 1) as nat) {
            Some(e) => Some(e),
            None => open_problem(sources[n - 1].0@, slice_view(sources[n - 1].1), board_size),
        }
    }
}

impl MemoryGoldenLookupLayers {
    pub closed spec fn spec_layers(&self) -> Seq<MemoryGoldenLookup> {
        self.layers@
    }

    #[verifier::type_invariant]
    closed spec fn inv(&self) -> bool {
        self.layers@.len() > 0
    }

    pub open spec fn all_sorted(&self) -> bool {
        forall|i: int| 0 <= i < self.spec_layers().len() ==> (#[trigger] self.spec_layers()[i]).sorted()
    }

    pub open spec fn ready_for(&self, state: GameState) -> bool {
        forall|i: int| 0 <= i < self.spec_layers().len() ==> (#[trigger] self.spec_layers()[i]).ready_for(state)
    }

    /// The first layer whose table answers for the position: the layer that
    /// owns it, whether or not the tables are sorted.
    pub open spec fn probe_owner(&self, state: GameState) -> Option<int> {
        first_probed(self.spec_layers(), state, self.spec_layers().len())
    }

    /// The layer that owns a position, when every table is sorted.
    pub open spec fn owner(&self, state: GameState) -> Option<int> {
        first_holding(self.spec_layers(), state, self.spec_layers().len())
    }

    /// Open every layer from its table and sidecar bytes, in priority order.
    pub fn open_bytes(
        sources: &[(&[u8], Option<&[u8]>)],
        board_size: u8,
        reserve_per_player: u8,
    ) -> (r: Result<Self, String>)
        ensures
            sources@.len() == 0 ==> (r matches Err(e) && e@ == "golden lookup requires at least one layer"@),
            sources@.len() > 0 ==> (r is Ok <==> first_open_problem(sources@, board_size, sources@.len()) is None),
            sources@.len() > 0 ==> (r matches Err(e) ==> first_open_problem(sources@, board_size, sources@.len()) == Some(e@)),
            r matches Ok(layers) ==> layers.spec_layers().len() == sources@.len() && forall|i: int|
                0 <= i < sources@.len() ==> (#[trigger] layers.spec_layers()[i]).table@ == sources@[i].0@
                    && layers.spec_layers()[i].table.spec_board_size() == board_size
                    && layers.spec_layers()[i].table.spec_reserve() == reserve_per_player,
    {
        if sources.len() == 0 {
            return Err(String::from_str("golden lookup requires at least one layer"));
        }
        let mut layers: Vec<MemoryGoldenLookup> = Vec::new();
        let mut i: usize = 0;
        while i < sources.len()
            invariant
                i <= sources@.len(),
                layers@.len() == i,
                first_open_problem(sources@, board_size, i as nat) is None,
                forall|j: int| 0 <= j < i ==> (#[trigger] layers@[j]).table@ == sources@[j].0@
                    && layers@[j].table.spec_board_size() == board_size
                    && layers@[j].table.spec_reserve() == reserve_per_player,
            decreases sources@.len() - i,
        {
            let (table, sidecar) = sources[i];
            let layer = match MemoryGoldenLookup::open_bytes(table, sidecar, board_size, reserve_per_player) {
                Ok(layer) => layer,
                Err(e) => {
                    proof {
                        lemma_first_open_problem_stays(sources@, board_size, i as nat + 1, sources@.len());
                    }
                    return Err(e);
                },
            };
            layers.push(layer);
            i = i + 1;
        }
        Ok(MemoryGoldenLookupLayers { layers })
    }

    pub fn layer_count(&self) -> (r: usize)
        ensures
            r == self.spec_layers().len(),
    {
        self.layers.len()
    }

    /// Total rows over the layers.
    pub fn rows(&self) -> (r: u64)
        requires
            rows_upto(self.spec_layers(), self.spec_layers().len()) <= u64::MAX,
        ensures
            r == rows_upto(self.spec_layers(), self.spec_layers().len()),
    {
        let mut total: u64 = 0;
        let mut i: usize = 0;
        while i < self.layers.len()
            invariant
                i <= self.layers@.len(),
                total == rows_upto(self.layers@, i as nat),
                rows_upto(self.layers@, self.layers@.len() as nat) <= u64::MAX,
            decreases self.layers@.len() - i,
        {
            proof {
                lemma_rows_upto_grows(self.layers@, i as nat + 1, self.layers@.len() as nat);
            }
            total = total + self.layers[i].table.rows();
            i = i + 1;
        }
        total
    }

    /// The index of the first layer whose table holds the position.
    fn owning_layer(&self, state: GameState) -> (r: Option<usize>)
        requires
            self.ready_for(state),
        ensures
            r matches Some(i) ==> i < self.spec_layers().len(),
            self.all_sorted() ==> match r {
                Some(i) => self.owner(state) == Some(i as int),
                None => self.owner(state) is None,
            },
            match r {
                Some(i) => self.probe_owner(state) == Some(i as int),
                None => self.probe_owner(state) is None,
            },
    {
        let mut i: usize = 0;
        while i < self.layers.len()
            invariant
                i <= self.layers@.len(),
                self.ready_for(state),
                self.all_sorted() ==> first_holding(self.layers@, state, i as nat) is None,
                first_probed(self.layers@, state, i as nat) is None,
            decreases self.layers@.len() - i,
        {
            proof {
                assert(self.spec_layers()[i as int].ready_for(state));
            }
            if self.layers[i].lookup(state).is_some() {
                proof {
                    lemma_first_probed_stays(self.layers@, state, i as nat + 1, self.layers@.len() as nat);
                    if self.all_sorted() {
                        assert(self.spec_layers()[i as int].sorted());
                        lemma_first_holding_stays(self.layers@, state, i as nat + 1, self.layers@.len() as nat);
                    }
                }
                return Some(i);
            }
            i = i + 1;
        }
        None
    }

    /// The outcome of the layer that owns the position.
    pub fn lookup(&self, state: GameState) -> (r: Option<GoldenOutcome>)
        requires
            self.ready_for(state),
        ensures
            self.all_sorted() ==> r == (match self.owner(state) {
                Some(i) => self.spec_layers()[i].answer(state),
                None => None,
            }),
            r == (match self.probe_owner(state) {
                Some(i) => self.spec_layers()[i].probed(state),
                None => None,
            }),
    {
        match self.owning_layer(state) {
            Some(i) => {
                proof {
                    assert(self.spec_layers()[i as int].ready_for(state));
                }
                self.layers[i].lookup(state)
            },
            None => None,
        }
    }

    /// The proven action of the layer that owns the position.
    pub fn proven_action(&self, state: GameState) -> (r: Option<Action>)
        requires
            state.wf(),
            self.ready_for(state),
        ensures
            self.all_sorted() ==> r == (match self.owner(state) {
                Some(i) => self.spec_layers()[i].proven(state),
                None => None,
            }),
            r == (match self.probe_owner(state) {
                Some(i) => self.spec_layers()[i].proven_probed(state),
                None => None,
            }),
    {
        match self.owning_layer(state) {
            Some(i) => {
                proof {
                    assert(self.spec_layers()[i as int].ready_for(state));
                }
                self.layers[i].proven_action(state)
            },
            None => None,
        }
    }

    /// The row value of the layer that owns the position.
    pub fn row_value(&self, state: GameState) -> (r: Option<GoldenRowValue>)
        requires
            self.ready_for(state),
        ensures
            self.all_sorted() ==> r == (match self.owner(state) {
                Some(i) => self.spec_layers()[i].row(state),
                None => None,
            }),
    {
        match self.owning_layer(state) {
            Some(i) => {
                proof {
                    assert(self.spec_layers()[i as int].ready_for(state));
                }
                self.layers[i].row_value(state)
            },
            None => None,
        }
    }

    /// The labels of the layer that owns the position.
    pub fn action_values(&self, state: GameState) -> (r: Option<Vec<GoldenActionValue>>)
        requires
            self.ready_for(state),
        ensures
            self.all_sorted() ==> match self.owner(state) {
                Some(i) => match self.spec_layers()[i].labels(state) {
                    Some(values) => r matches Some(v) && v@ == values,
                    None => r is None,
                },
                None => r is None,
            },
    {
        match self.owning_layer(state) {
            Some(i) => {
                proof {
                    assert(self.spec_layers()[i as int].ready_for(state));
                }
                self.layers[i].action_values(state)
            },
            None => None,
        }
    }
}

/// The first of the first `n` layers whose table answers for the position,
/// sorted or not.
pub open spec fn first_probed(layers: Seq<MemoryGoldenLookup>, state: GameState, n: nat) -> Option<int>
    decreases n,
{
    if n == 0 {
        None
    } else {
        match first_probed(layers, state, (n - 1) as nat) {
            Some(i) => Some(i),
            None => if layers[n - 1].probed(state) is Some {
                Some(n - 1)
            } else {
                None
            },
        }
    }
}

proof fn lemma_first_probed_stays(layers: Seq<MemoryGoldenLookup>, state: GameState, n: nat, m: nat)
    requires
        n <= m,
        first_probed(layers, state, n) is Some,
    ensures
        first_probed(layers, state, m) == first_probed(layers, state, n),
    decreases m - n,
{
    if n < m {
        lemma_first_probed_stays(layers, state, n, (m - 1) as nat);
    }
}

proof fn lemma_first_holding_stays(layers: Seq<MemoryGoldenLookup>, state: GameState, n: nat, m: nat)
    requires
        n <= m,
        first_holding(layers, state, n) is Some,
    ensures
        first_holding(layers, state, m) == first_holding(layers, state, n),
    decreases m - n,
{
    if n < m {
        lemma_first_holding_stays(layers, state, n, (m - 1) as nat);
    }
}

proof fn lemma_first_open_problem_stays(
    sources: Seq<(&[u8], Option<&[u8]>)>,
    board_size: u8,
    n: nat,
    m: nat,
)
    requires
        n <= m,
        first_open_problem(sources, board_size, n) is Some,
    ensures
        first_open_problem(sources, board_size, m) == first_open_problem(sources, board_size, n),
    decreases m - n,
{
    if n < m {
        lemma_first_open_problem_stays(sources, board_size, n, (m - 1) as nat);
    }
}

proof fn lemma_rows_upto_grows(layers: Seq<MemoryGoldenLookup>, n: nat, m: nat)
    requires
        n <= m,
    ensures
        rows_upto(layers, n) <= rows_upto(layers, m),
    decreases m - n,
{
    if n < m {
        lemma_rows_upto_grows(layers, n, (m - 1) as nat);
    }
}

} // verus!
