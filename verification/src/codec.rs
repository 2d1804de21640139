//! The textual codec: a game is written as a `height x width` grid of
//! 1-indexed turn numbers (`0` marks an empty cell), rows separated by LF
//! and cells by single spaces.  Decoding accepts any ASCII-whitespace run
//! between tokens and blank lines around the grid.  A second, position-only
//! form (`R` / `B` / `_` per cell) serves as the transposition-cache key.
//!
//! Every specification here is over the UTF-8 bytes of the text, so the
//! contracts of `serialize` and `deserialize` compose into exact round-trip
//! laws (see [`crate::laws`]).

use vstd::prelude::*;

use crate::game::{calc_field_index, Cell, Coords, GameError, Player, State};
use crate::model::{lemma_idx_in_range, lemma_place_wf, player_of_index, Board};

verus! {

/// A game state in its stable textual form.
#[derive(Clone, Debug, PartialEq, Eq, Hash)]
pub struct GameStateSerialized(pub String);

/// ASCII whitespace, the token separators of the format.
pub open spec fn is_ws(b: u8) -> bool {
    b == 32 || b == 9 || b == 10 || b == 11 || b == 12 || b == 13
}

/// ASCII digit.
pub open spec fn is_digit(b: u8) -> bool {
    48 <= b <= 57
}

/// Every byte the encoders emit: digits, space, LF, and the cell letters of
/// the position-only hash.
pub open spec fn codec_byte(b: u8) -> bool {
    is_digit(b) || b == 32 || b == 10 || b == 82 || b == 66 || b == 95
}

/// Bytes reinterpreted as the characters of an ASCII string.
pub open spec fn chars_of(bs: Seq<u8>) -> Seq<char> {
    bs.map_values(|b: u8| b as char)
}

/// Leading ASCII whitespace removed.
pub open spec fn trim_front(s: Seq<u8>) -> Seq<u8>
    decreases s.len(),
{
    if s.len() > 0 && is_ws(s.first()) {
        trim_front(s.drop_first())
    } else {
        s
    }
}

/// Trailing ASCII whitespace removed.
pub open spec fn trim_back(s: Seq<u8>) -> Seq<u8>
    decreases s.len(),
{
    if s.len() > 0 && is_ws(s.last()) {
        trim_back(s.drop_last())
    } else {
        s
    }
}

/// ASCII whitespace removed from both ends.
pub open spec fn trim_ws(s: Seq<u8>) -> Seq<u8> {
    trim_back(trim_front(s))
}

/// The lines of `s`, split on LF (an empty input is one empty line).
pub open spec fn split_nl(s: Seq<u8>) -> Seq<Seq<u8>>
    decreases s.len(),
{
    if s.len() == 0 {
        seq![Seq::empty()]
    } else {
        let r = split_nl(s.drop_last());
        if s.last() == 10 {
            r + seq![Seq::<u8>::empty()]
        } else {
            r.update(r.len() - 1, r.last().push(s.last()))
        }
    }
}

/// The maximal runs of non-whitespace bytes of `s`, in order.
pub open spec fn tokens_of(s: Seq<u8>) -> Seq<Seq<u8>>
    decreases s.len(),
{
    if s.len() == 0 {
        Seq::empty()
    } else {
        let r = tokens_of(s.drop_last());
        let b = s.last();
        if is_ws(b) {
            r
        } else if s.len() >= 2 && !is_ws(s[s.len() - 2]) {
            r.update(r.len() - 1, r.last().push(b))
        } else {
            r + seq![seq![b]]
        }
    }
}

pub open spec fn all_digits(t: Seq<u8>) -> bool {
    forall|i: int| 0 <= i < t.len() ==> is_digit(#[trigger] t[i])
}

/// The number a digit token denotes.
pub open spec fn token_val(t: Seq<u8>) -> int
    decreases t.len(),
{
    if t.len() == 0 {
        0
    } else {
        token_val(t.drop_last()) * 10 + (t.last() - 48)
    }
}

/// The decimal digits of `n` (for `n < 0` a single arbitrary digit; the
/// encoders only apply it to non-negative numbers).
pub open spec fn dec_digits(n: int) -> Seq<u8>
    decreases n,
{
    if n <= 9 {
        seq![
            (48 + if n < 0 {
                0
            } else {
                n
            }) as u8,
        ]
    } else {
        dec_digits(n / 10).push((48 + n % 10) as u8)
    }
}

/// `parts` joined with the single separator byte `sep`.
pub open spec fn join_bytes(parts: Seq<Seq<u8>>, sep: u8) -> Seq<u8>
    decreases parts.len(),
{
    if parts.len() == 0 {
        Seq::empty()
    } else if parts.len() == 1 {
        parts[0]
    } else {
        join_bytes(parts.drop_last(), sep) + seq![sep] + parts.last()
    }
}

/// The grid of 1-indexed turn numbers that `hist` paints on a board of
/// `cells` cells and width `sx` (0 everywhere else).
pub open spec fn number_grid(sx: int, cells: int, hist: Seq<Coords>) -> Seq<int>
    decreases hist.len(),
{
    if hist.len() == 0 {
        Seq::new(cells as nat, |k: int| 0)
    } else {
        let c = hist.last();
        number_grid(sx, cells, hist.drop_last()).update(
            (c.1 as int) * sx + c.0 as int,
            hist.len() as int,
        )
    }
}

/// The serialized text of a board, as bytes.
pub open spec fn render_board(b: Board) -> Seq<u8> {
    let g = number_grid(b.size_x, b.cells(), b.hist);
    join_bytes(
        Seq::new(
            b.size_y as nat,
            |y: int|
                join_bytes(
                    Seq::new(b.size_x as nat, |x: int| dec_digits(g[y * b.size_x + x])),
                    32,
                ),
        ),
        10,
    )
}

/// The letter of a cell in the position-only hash.
pub open spec fn hash_cell_byte(c: Cell) -> u8 {
    match c {
        Some(Player::Red) => 82,
        Some(Player::Blue) => 66,
        None => 95,
    }
}

/// The position-only hash of a board, as bytes: each cell `R`, `B` or `_`,
/// in the same grid layout as the serialized text.
pub open spec fn hash_board(b: Board) -> Seq<u8> {
    join_bytes(
        Seq::new(
            b.size_y as nat,
            |y: int|
                join_bytes(
                    Seq::new(b.size_x as nat, |x: int| seq![hash_cell_byte(b.cell_at(x, y))]),
                    32,
                ),
        ),
        10,
    )
}

/// The rows of the input: outer whitespace dropped, then split on LF.
pub open spec fn parsed_rows(s: Seq<u8>) -> Seq<Seq<u8>> {
    split_nl(trim_ws(s))
}

/// Number of tokens of the first row: the width the whole grid must have.
pub open spec fn spec_width(s: Seq<u8>) -> int {
    tokens_of(parsed_rows(s)[0]).len() as int
}

/// Number of rows: the height of the grid.
pub open spec fn spec_height(s: Seq<u8>) -> int {
    parsed_rows(s).len() as int
}

/// The input has a non-degenerate rectangular token grid.
pub open spec fn dims_ok(s: Seq<u8>) -> bool {
    &&& s.len() > 0
    &&& 1 <= spec_width(s) <= 255
    &&& 1 <= spec_height(s) <= 255
    &&& forall|i: int|
        0 <= i < parsed_rows(s).len() ==> tokens_of(#[trigger] parsed_rows(s)[i]).len()
            == spec_width(s)
}

/// All rows' tokens, in reading order.
pub open spec fn flat_tokens(rows: Seq<Seq<u8>>) -> Seq<Seq<u8>>
    decreases rows.len(),
{
    if rows.len() == 0 {
        Seq::empty()
    } else {
        flat_tokens(rows.drop_last()) + tokens_of(rows.last())
    }
}

/// A turn-number slot: the cell and player claimed for that turn, if any.
pub type SlotEntry = Option<(Coords, Player)>;

/// Walk the cells in reading order from cell `n` on: parse each token,
/// fill the slot its turn number claims, and report the first offence.
pub open spec fn scan_cells(toks: Seq<Seq<u8>>, w: int, n: int, slots: Seq<SlotEntry>) -> Result<
    Seq<SlotEntry>,
    GameError,
>
    decreases toks.len() - n,
{
    if n < 0 || n >= toks.len() {
        Ok(slots)
    } else {
        let t = toks[n];
        if !(all_digits(t) && t.len() >= 1) {
            Err(GameError::InvalidToken)
        } else {
            let v = token_val(t);
            if v == 0 {
                scan_cells(toks, w, n + 1, slots)
            } else if v > slots.len() {
                Err(GameError::NonContiguousHistory)
            } else if slots[v - 1] is Some {
                Err(GameError::DuplicateTurn)
            } else {
                scan_cells(
                    toks,
                    w,
                    n + 1,
                    slots.update(
                        v - 1,
                        Some(
                            (
                                ((n % w) as u8, (n / w) as u8),
                                if v % 2 == 0 {
                                    Player::Blue
                                } else {
                                    Player::Red
                                },
                            ),
                        ),
                    ),
                )
            }
        }
    }
}

/// Length of the leading run of filled slots.
pub open spec fn some_prefix_len<T>(slots: Seq<Option<T>>) -> int
    decreases slots.len(),
{
    if slots.len() == 0 || slots[0] is None {
        0
    } else {
        1 + some_prefix_len(slots.drop_first())
    }
}

/// The filled slots form a prefix: no gap before a filled slot.
pub open spec fn is_some_prefix<T>(slots: Seq<Option<T>>) -> bool {
    forall|i: int| some_prefix_len(slots) <= i < slots.len() ==> (#[trigger] slots[i]) is None
}

/// The values of the leading run of filled slots, in order.
pub open spec fn some_prefix_values<T>(slots: Seq<Option<T>>, fill: T) -> Seq<T> {
    Seq::new(
        some_prefix_len(slots) as nat,
        |i: int|
            match slots[i] {
                Some(e) => e,
                None => fill,
            },
    )
}

/// The empty turn slots of a `w x h` grid.
pub open spec fn empty_slots(w: int, h: int) -> Seq<SlotEntry> {
    Seq::new((w * h) as nat, |i: int| None)
}

/// The inferred history of the input: the landing cell and player of each
/// turn `1..N`, or the first decoding offence in scan order.
pub open spec fn parse_history(s: Seq<u8>) -> Result<Seq<(Coords, Player)>, GameError> {
    if !dims_ok(s) {
        Err(GameError::InvalidDimensions)
    } else {
        let w = spec_width(s);
        let h = spec_height(s);
        let toks = flat_tokens(parsed_rows(s));
        match scan_cells(toks, w, 0, empty_slots(w, h)) {
            Err(e) => Err(e),
            Ok(slots) => if !is_some_prefix(slots) {
                Err(GameError::NonContiguousHistory)
            } else {
                Ok(some_prefix_values(slots, ((0u8, 0u8), Player::Red)))
            },
        }
    }
}

/// The empty board model of the given dimensions.
pub open spec fn board_new(w: int, h: int) -> Board {
    Board {
        size_x: w,
        size_y: h,
        field: Seq::new((w * h) as nat, |k: int| None),
        hist: Seq::empty(),
        winner: None,
    }
}

/// The board the decoder builds by writing each inferred turn to its cell
/// by literal coordinates (no gravity re-validation).
pub open spec fn replayed(w: int, h: int, entries: Seq<(Coords, Player)>) -> Board
    decreases entries.len(),
{
    if entries.len() == 0 {
        board_new(w, h)
    } else {
        let b = replayed(w, h, entries.drop_last());
        let e = entries.last();
        Board {
            field: b.field.update((e.0.1 as int) * w + e.0.0 as int, Some(e.1)),
            hist: b.hist.push(e.0),
            ..b
        }
    }
}

/// What `deserialize` produces from the bytes of its input: the replayed
/// board with the winner recomputed from the last move, or the first
/// decoding error.
pub open spec fn parse_game(s: Seq<u8>) -> Result<Board, GameError> {
    match parse_history(s) {
        Err(e) => Err(e),
        Ok(entries) => {
            let raw = replayed(spec_width(s), spec_height(s), entries);
            Ok(Board { winner: raw.computed_winner(), ..raw })
        },
    }
}

/// One `0` token and a space for each cell of a row.
pub open spec fn zeros_row(w: int) -> Seq<u8>
    decreases w,
{
    if w <= 0 {
        Seq::empty()
    } else {
        zeros_row(w - 1) + seq![48u8, 32u8]
    }
}

/// What `empty_state` produces: `h` rows of `w` zero tokens, each row
/// closed by LF.
pub open spec fn empty_state_bytes(w: int, h: int) -> Seq<u8>
    decreases h,
{
    if h <= 0 {
        Seq::empty()
    } else {
        empty_state_bytes(w, h - 1) + zeros_row(w) + seq![10u8]
    }
}

/// The views of a sequence of byte buffers.
pub open spec fn views_of(rows: Seq<Vec<u8>>) -> Seq<Seq<u8>> {
    rows.map_values(|v: Vec<u8>| v@)
}

fn ws(b: u8) -> (r: bool)
    ensures
        r == is_ws(b),
{
    b == 32 || b == 9 || b == 10 || b == 11 || b == 12 || b == 13
}

fn digit(b: u8) -> (r: bool)
    ensures
        r == is_digit(b),
{
    48 <= b && b <= 57
}

/// Dropping a maximal whitespace prefix is what `trim_front` does.
proof fn lemma_trim_front_skip(s: Seq<u8>, k: int)
    requires
        0 <= k <= s.len(),
        forall|i: int| 0 <= i < k ==> is_ws(#[trigger] s[i]),
        k == s.len() || !is_ws(s[k]),
    ensures
        trim_front(s) == s.skip(k),
    decreases k,
{
    if k == 0 {
        assert(s.skip(0) =~= s);
    } else {
        let s2 = s.drop_first();
        assert forall|i: int| 0 <= i < k - 1 implies is_ws(#[trigger] s2[i]) by {
            assert(s2[i] == s[i + 1]);
        }
        if k < s.len() {
            assert(s2[k - 1] == s[k]);
        }
        lemma_trim_front_skip(s2, k - 1);
        assert(s2.skip(k - 1) =~= s.skip(k));
    }
}

/// Dropping a maximal whitespace suffix is what `trim_back` does.
proof fn lemma_trim_back_take(s: Seq<u8>, k: int)
    requires
        0 <= k <= s.len(),
        forall|i: int| k <= i < s.len() ==> is_ws(#[trigger] s[i]),
        k == 0 || !is_ws(s[k - 1]),
    ensures
        trim_back(s) == s.take(k),
    decreases s.len(),
{
    if k == s.len() {
        assert(s.take(k) =~= s);
    } else {
        assert(is_ws(s.last()));
        let s2 = s.drop_last();
        assert forall|i: int| k <= i < s2.len() implies is_ws(#[trigger] s2[i]) by {
            assert(s2[i] == s[i]);
        }
        if k > 0 {
            assert(s2[k - 1] == s[k - 1]);
        }
        lemma_trim_back_take(s2, k);
        assert(s2.take(k) =~= s.take(k));
    }
}

/// Splitting always yields at least one line.
proof fn lemma_split_nl_len(s: Seq<u8>)
    ensures
        split_nl(s).len() >= 1,
    decreases s.len(),
{
    if s.len() > 0 {
        lemma_split_nl_len(s.drop_last());
    }
}

/// A buffer that ends in a non-whitespace byte has an open last token.
proof fn lemma_tokens_nonempty(s: Seq<u8>)
    requires
        s.len() > 0,
        !is_ws(s.last()),
    ensures
        tokens_of(s).len() >= 1,
    decreases s.len(),
{
    if s.len() >= 2 && !is_ws(s[s.len() - 2]) {
        assert(s.drop_last().last() == s[s.len() - 2]);
        lemma_tokens_nonempty(s.drop_last());
    }
}

/// Outer whitespace dropped, then split on LF.
fn trimmed_rows(bytes: &Vec<u8>) -> (rows: Vec<Vec<u8>>)
    ensures
        views_of(rows@) == split_nl(trim_ws(bytes@)),
        rows@.len() >= 1,
{
    let n = bytes.len();
    let mut lo: usize = 0;
    while lo < n && ws(bytes[lo])
        invariant
            n == bytes@.len(),
            lo <= n,
            forall|i: int| 0 <= i < lo ==> is_ws(#[trigger] bytes@[i]),
        decreases n - lo,
    {
        lo = lo + 1;
    }
    proof {
        lemma_trim_front_skip(bytes@, lo as int);
    }
    let mut hi: usize = n;
    while hi > lo && ws(bytes[hi - 1])
        invariant
            n == bytes@.len(),
            lo <= hi <= n,
            forall|i: int| hi <= i < n ==> is_ws(#[trigger] bytes@[i]),
        decreases hi,
    {
        hi = hi - 1;
    }
    let ghost front = bytes@.skip(lo as int);
    proof {
        assert forall|i: int| hi - lo <= i < front.len() implies is_ws(#[trigger] front[i]) by {
            assert(front[i] == bytes@[i + lo]);
        }
        if hi > lo {
            assert(front[hi - lo - 1] == bytes@[hi - 1]);
        }
        lemma_trim_back_take(front, hi - lo as int);
        assert(trim_ws(bytes@) =~= bytes@.subrange(lo as int, hi as int));
    }
    let mut rows: Vec<Vec<u8>> = Vec::new();
    rows.push(Vec::new());
    let mut j: usize = lo;
    proof {
        assert(views_of(rows@) =~= split_nl(bytes@.subrange(lo as int, lo as int)));
    }
    while j < hi
        invariant
            n == bytes@.len(),
            lo <= j <= hi <= n,
            rows@.len() >= 1,
            views_of(rows@) == split_nl(bytes@.subrange(lo as int, j as int)),
        decreases hi - j,
    {
        let b = bytes[j];
        proof {
            assert(bytes@.subrange(lo as int, j + 1).drop_last() =~= bytes@.subrange(
                lo as int,
                j as int,
            ));
            assert(bytes@.subrange(lo as int, j + 1).last() == b);
        }
        if b == 10 {
            rows.push(Vec::new());
            proof {
                assert(views_of(rows@) =~= split_nl(bytes@.subrange(lo as int, j as int))
                    + seq![Seq::<u8>::empty()]);
            }
        } else {
            let li = rows.len() - 1;
            let ghost old_rows = rows@;
            rows[li].push(b);
            proof {
                let prev = split_nl(bytes@.subrange(lo as int, j as int));
                assert(rows@ =~= old_rows.update(li as int, rows@[li as int]));
                assert(rows@[li as int]@ =~= old_rows[li as int]@.push(b));
                assert(views_of(rows@) =~= prev.update(prev.len() - 1, prev.last().push(b)));
            }
        }
        j = j + 1;
    }
    proof {
        assert(bytes@.subrange(lo as int, hi as int) =~= trim_ws(bytes@));
    }
    rows
}

/// The whitespace-separated tokens of one row.
pub fn split_row(row: &Vec<u8>) -> (toks: Vec<Vec<u8>>)
    ensures
        views_of(toks@) == tokens_of(row@),
{
    let mut toks: Vec<Vec<u8>> = Vec::new();
    let mut j: usize = 0;
    proof {
        assert(views_of(toks@) =~= tokens_of(row@.take(0)));
    }
    while j < row.len()
        invariant
            j <= row@.len(),
            views_of(toks@) == tokens_of(row@.take(j as int)),
            toks@.len() >= 1 || j == 0 || is_ws(row@[j - 1]),
        decreases row@.len() - j,
    {
        let b = row[j];
        let ghost s = row@.take(j + 1);
        proof {
            assert(s.drop_last() =~= row@.take(j as int));
            assert(s.last() == b);
        }
        if ws(b) {
        } else if j > 0 && !ws(row[j - 1]) {
            proof {
                assert(s[s.len() - 2] == row@[j - 1]);
                lemma_tokens_nonempty(row@.take(j as int));
            }
            let li = toks.len() - 1;
            let ghost old_toks = toks@;
            toks[li].push(b);
            proof {
                let prev = tokens_of(row@.take(j as int));
                assert(toks@ =~= old_toks.update(li as int, toks@[li as int]));
                assert(toks@[li as int]@ =~= old_toks[li as int]@.push(b));
                assert(views_of(toks@) =~= prev.update(prev.len() - 1, prev.last().push(b)));
            }
        } else {
            let mut t: Vec<u8> = Vec::new();
            t.push(b);
            toks.push(t);
            proof {
                if j > 0 {
                    assert(s[s.len() - 2] == row@[j - 1]);
                }
                assert(views_of(toks@) =~= tokens_of(row@.take(j as int)) + seq![seq![b]]);
            }
        }
        j = j + 1;
    }
    proof {
        assert(row@.take(row@.len() as int) =~= row@);
    }
    toks
}

/// Turn a buffer of codec bytes into the String with those characters.
fn ascii_to_string(v: &Vec<u8>) -> (s: String)
    requires
        forall|i: int| 0 <= i < v@.len() ==> codec_byte(#[trigger] v@[i]),
    ensures
        s@ == chars_of(v@),
{
    let mut s = String::new();
    let mut i: usize = 0;
    proof {
        assert(s@ =~= chars_of(v@.take(0)));
    }
    while i < v.len()
        invariant
            forall|k: int| 0 <= k < v@.len() ==> codec_byte(#[trigger] v@[k]),
            i <= v@.len(),
            s@ == chars_of(v@.take(i as int)),
        decreases v@.len() - i,
    {
        let b = v[i];
        let piece: &str = match b {
            48 => "0",
            49 => "1",
            50 => "2",
            51 => "3",
            52 => "4",
            53 => "5",
            54 => "6",
            55 => "7",
            56 => "8",
            57 => "9",
            32 => " ",
            10 => "\n",
            82 => "R",
            66 => "B",
            95 => "_",
            _ => {
                proof {
                    assert(false);
                }
                ""
            },
        };
        proof {
            reveal_strlit("0");
            reveal_strlit("1");
            reveal_strlit("2");
            reveal_strlit("3");
            reveal_strlit("4");
            reveal_strlit("5");
            reveal_strlit("6");
            reveal_strlit("7");
            reveal_strlit("8");
            reveal_strlit("9");
            reveal_strlit(" ");
            reveal_strlit("\n");
            reveal_strlit("R");
            reveal_strlit("B");
            reveal_strlit("_");
            assert(piece@ =~= seq![b as char]);
        }
        s.append(piece);
        proof {
            assert(v@.take(i + 1).drop_last() =~= v@.take(i as int));
            assert(chars_of(v@.take(i + 1)) =~= chars_of(v@.take(i as int)).push(b as char));
            assert(s@ =~= chars_of(v@.take(i + 1)));
        }
        i = i + 1;
    }
    proof {
        assert(v@.take(v@.len() as int) =~= v@);
    }
    s
}

/// Append the decimal digits of `n` to the buffer.
fn push_number(out: &mut Vec<u8>, n: usize)
    ensures
        final(out)@ == old(out)@ + dec_digits(n as int),
    decreases n,
{
    if n <= 9 {
        out.push(48 + n as u8);
        proof {
            assert(final(out)@ =~= old(out)@ + dec_digits(n as int));
        }
    } else {
        proof {
            assert(n / 10 < n);
        }
        push_number(out, n / 10);
        out.push(48 + (n % 10) as u8);
        proof {
            assert(final(out)@ =~= old(out)@ + dec_digits(n as int));
        }
    }
}

/// `join_bytes` of a prefix, one step at a time.
proof fn lemma_join_snoc(parts: Seq<Seq<u8>>, sep: u8, n: int)
    requires
        1 <= n <= parts.len(),
    ensures
        n == 1 ==> join_bytes(parts.take(n), sep) == parts[0],
        n > 1 ==> join_bytes(parts.take(n), sep) == join_bytes(parts.take(n - 1), sep) + seq![sep]
            + parts[n - 1],
{
    let p = parts.take(n);
    assert(p.len() == n);
    if n == 1 {
        assert(join_bytes(p, sep) == p[0]);
        assert(p[0] == parts[0]);
    } else {
        assert(p.drop_last() =~= parts.take(n - 1));
        assert(p.last() == parts[n - 1]);
    }
}

impl State {
    /// The stable text form: the grid of 1-indexed turn numbers.
    pub fn serialize(&self) -> (r: GameStateSerialized)
        requires
            self@.wf_board(),
        ensures
            r.0@ == chars_of(render_board(self@)),
    {
        let sx = self.size_x;
        let sy = self.size_y;
        let cells = self.max_depth();
        let ghost gsx = sx as int;

        // Paint the turn numbers onto a flat grid.
        let mut grid: Vec<usize> = Vec::new();
        for k in 0..cells
            invariant
                grid@.len() == k,
                forall|j: int| 0 <= j < grid@.len() ==> #[trigger] grid@[j] == 0,
        {
            grid.push(0);
        }
        let hn = self.coords_history.len();
        let mut hi: usize = 0;
        proof {
            assert(self@.hist.take(0) =~= Seq::<Coords>::empty());
            assert(grid@.map_values(|v: usize| v as int) =~= number_grid(
                gsx,
                cells as int,
                self@.hist.take(0),
            ));
        }
        while hi < hn
            invariant
                self@.wf_board(),
                gsx == self@.size_x,
                sx == self@.size_x,
                hn == self@.hist.len(),
                cells == self@.cells(),
                grid@.len() == cells,
                hi <= hn,
                grid@.map_values(|v: usize| v as int) == number_grid(
                    gsx,
                    cells as int,
                    self@.hist.take(hi as int),
                ),
            decreases hn - hi,
        {
            let c = self.coords_history[hi];
            proof {
                assert(self@.placed_ok(hi as int));
                lemma_idx_in_range(self@, c.0 as int, c.1 as int);
            }
            let k = calc_field_index(sx, c.0, c.1);
            let ghost pre_grid = grid@;
            grid[k] = hi + 1;
            proof {
                assert(self@.hist.take(hi + 1).drop_last() =~= self@.hist.take(hi as int));
                assert(self@.hist.take(hi + 1).last() == self@.hist[hi as int]);
                assert(grid@ =~= pre_grid.update(k as int, (hi + 1) as usize));
                assert(grid@.map_values(|v: usize| v as int) =~= pre_grid.map_values(
                    |v: usize| v as int,
                ).update(k as int, hi + 1));
            }
            hi = hi + 1;
        }
        proof {
            assert(self@.hist.take(hn as int) =~= self@.hist);
        }
        let ghost g = number_grid(gsx, cells as int, self@.hist);
        let ghost rows: Seq<Seq<u8>> = Seq::new(
            sy as nat,
            |y: int| join_bytes(Seq::new(sx as nat, |x: int| dec_digits(g[y * gsx + x])), 32),
        );

        // Render the grid row by row.
        let mut out: Vec<u8> = Vec::new();
        let mut y: u8 = 0;
        proof {
            assert(out@ =~= join_bytes(rows.take(0), 10));
        }
        while y < sy
            invariant
                self@.wf_board(),
                gsx == self@.size_x,
                sx == self@.size_x,
                sy == self@.size_y,
                cells == self@.cells(),
                grid@.len() == cells,
                grid@.map_values(|v: usize| v as int) == g,
                g == number_grid(gsx, cells as int, self@.hist),
                rows == Seq::new(
                    sy as nat,
                    |yy: int|
                        join_bytes(
                            Seq::new(sx as nat, |x: int| dec_digits(g[yy * gsx + x])),
                            32,
                        ),
                ),
                y <= sy,
                out@ == join_bytes(rows.take(y as int), 10),
            decreases sy - y,
        {
            if y > 0 {
                out.push(10);
            }
            let ghost toks: Seq<Seq<u8>> = Seq::new(
                sx as nat,
                |x: int| dec_digits(g[(y as int) * gsx + x]),
            );
            let ghost row_start = out@;
            let mut x: u8 = 0;
            proof {
                assert(out@ =~= row_start + join_bytes(toks.take(0), 32));
            }
            while x < sx
                invariant
                    self@.wf_board(),
                    gsx == self@.size_x,
                    sx == self@.size_x,
                    grid@.len() == cells,
                    cells == self@.cells(),
                    grid@.map_values(|v: usize| v as int) == g,
                    toks == Seq::new(sx as nat, |xx: int| dec_digits(g[(y as int) * gsx + xx])),
                    y < self@.size_y,
                    x <= sx,
                    out@ == row_start + join_bytes(toks.take(x as int), 32),
                decreases sx - x,
            {
                if x > 0 {
                    out.push(32);
                }
                let k = calc_field_index(sx, x, y);
                proof {
                    lemma_idx_in_range(self@, x as int, y as int);
                }
                push_number(&mut out, grid[k]);
                proof {
                    lemma_join_snoc(toks, 32, x + 1);
                    assert(out@ =~= row_start + join_bytes(toks.take(x + 1), 32));
                }
                x = x + 1;
            }
            proof {
                assert(toks.take(sx as int) =~= toks);
                assert(rows[y as int] == join_bytes(toks, 32));
                lemma_join_snoc(rows, 10, y as int + 1);
                assert(out@ =~= join_bytes(rows.take(y as int + 1), 10));
            }
            y = y + 1;
        }
        proof {
            assert(rows.take(sy as int) =~= rows);
            assert(out@ == render_board(self@));
            lemma_render_board_bytes(self@);
        }
        GameStateSerialized(ascii_to_string(&out))
    }

    /// The position-only board hash: each cell `R`, `B` or `_`, the grid
    /// laid out as in the text form.  A function of the final board
    /// configuration only — the history does not enter.
    pub fn hash_non_historical(&self) -> (r: String)
        requires
            self@.wf_board(),
        ensures
            r@ == chars_of(hash_board(self@)),
    {
        let sx = self.size_x;
        let sy = self.size_y;
        let ghost rows: Seq<Seq<u8>> = Seq::new(
            sy as nat,
            |y: int|
                join_bytes(
                    Seq::new(sx as nat, |x: int| seq![hash_cell_byte(self@.cell_at(x, y))]),
                    32,
                ),
        );
        let mut out: Vec<u8> = Vec::new();
        let mut y: u8 = 0;
        proof {
            assert(out@ =~= join_bytes(rows.take(0), 10));
        }
        while y < sy
            invariant
                self@.wf_board(),
                sx == self@.size_x,
                sy == self@.size_y,
                rows == Seq::new(
                    sy as nat,
                    |yy: int|
                        join_bytes(
                            Seq::new(
                                sx as nat,
                                |x: int| seq![hash_cell_byte(self@.cell_at(x, yy))],
                            ),
                            32,
                        ),
                ),
                y <= sy,
                out@ == join_bytes(rows.take(y as int), 10),
            decreases sy - y,
        {
            if y > 0 {
                out.push(10);
            }
            let ghost toks: Seq<Seq<u8>> = Seq::new(
                sx as nat,
                |x: int| seq![hash_cell_byte(self@.cell_at(x, y as int))],
            );
            let ghost row_start = out@;
            let mut x: u8 = 0;
            proof {
                assert(out@ =~= row_start + join_bytes(toks.take(0), 32));
            }
            while x < sx
                invariant
                    self@.wf_board(),
                    sx == self@.size_x,
                    toks == Seq::new(
                        sx as nat,
                        |xx: int| seq![hash_cell_byte(self@.cell_at(xx, y as int))],
                    ),
                    y < self@.size_y,
                    x <= sx,
                    out@ == row_start + join_bytes(toks.take(x as int), 32),
                decreases sx - x,
            {
                if x > 0 {
                    out.push(32);
                }
                let k = calc_field_index(sx, x, y);
                proof {
                    lemma_idx_in_range(self@, x as int, y as int);
                }
                let b = match self.field[k] {
                    Some(Player::Red) => 82,
                    Some(Player::Blue) => 66,
                    None => 95,
                };
                out.push(b);
                proof {
                    lemma_join_snoc(toks, 32, x + 1);
                    assert(out@ =~= row_start + join_bytes(toks.take(x + 1), 32));
                }
                x = x + 1;
            }
            proof {
                assert(toks.take(sx as int) =~= toks);
                lemma_join_snoc(rows, 10, y as int + 1);
                assert(out@ =~= join_bytes(rows.take(y as int + 1), 10));
            }
            y = y + 1;
        }
        proof {
            assert(rows.take(sy as int) =~= rows);
            assert(out@ == hash_board(self@));
            lemma_hash_board_bytes(self@);
        }
        ascii_to_string(&out)
    }

    /// The board cells as rows, for callers who want the grid directly.
    pub fn to_rows(&self) -> (r: Vec<Vec<Cell>>)
        requires
            self@.wf_board(),
        ensures
            r@.len() == self@.size_y,
            forall|y: int|
                0 <= y < self@.size_y ==> (#[trigger] r@[y])@ == Seq::new(
                    self@.size_x as nat,
                    |x: int| self@.cell_at(x, y),
                ),
    {
        let mut res: Vec<Vec<Cell>> = Vec::new();
        let mut y: u8 = 0;
        while y < self.size_y
            invariant
                self@.wf_board(),
                y <= self@.size_y,
                res@.len() == y as int,
                forall|yy: int|
                    0 <= yy < y ==> (#[trigger] res@[yy])@ == Seq::new(
                        self@.size_x as nat,
                        |x: int| self@.cell_at(x, yy),
                    ),
            decreases self@.size_y - y,
        {
            let mut row: Vec<Cell> = Vec::new();
            let mut x: u8 = 0;
            while x < self.size_x
                invariant
                    self@.wf_board(),
                    y < self@.size_y,
                    x <= self@.size_x,
                    row@ =~= Seq::new(x as nat, |xx: int| self@.cell_at(xx, y as int)),
                decreases self@.size_x - x,
            {
                let k = calc_field_index(self.size_x, x, y);
                proof {
                    lemma_idx_in_range(self@, x as int, y as int);
                }
                row.push(self.field[k]);
                proof {
                    assert(row@ =~= Seq::new((x + 1) as nat, |xx: int| self@.cell_at(xx, y as int)));
                }
                x = x + 1;
            }
            res.push(row);
            y = y + 1;
        }
        res
    }
}

/// The text of an empty `width x height` board: rows of `0` tokens, each
/// token and each row closed by a separator (callers trim the tail).
pub fn empty_state(width: u8, height: u8) -> (r: String)
    ensures
        r@ == chars_of(empty_state_bytes(width as int, height as int)),
{
    let mut out: Vec<u8> = Vec::new();
    let mut y: u8 = 0;
    proof {
        assert(out@ =~= empty_state_bytes(width as int, 0));
    }
    while y < height
        invariant
            y <= height,
            out@ == empty_state_bytes(width as int, y as int),
        decreases height - y,
    {
        let ghost row_start = out@;
        let mut x: u8 = 0;
        proof {
            assert(out@ =~= row_start + zeros_row(0));
        }
        while x < width
            invariant
                x <= width,
                out@ == row_start + zeros_row(x as int),
            decreases width - x,
        {
            out.push(48);
            out.push(32);
            proof {
                assert(out@ =~= row_start + zeros_row(x as int + 1));
            }
            x = x + 1;
        }
        out.push(10);
        proof {
            assert(out@ =~= empty_state_bytes(width as int, y as int + 1));
        }
        y = y + 1;
    }
    proof {
        lemma_empty_state_bytes_range(width as int, height as int);
    }
    ascii_to_string(&out)
}

/// Check that the textual form is a rectangular token grid and return its
/// `(width, height)`; every failure is `InvalidDimensions`.
pub fn validate_serialized_dimensions(s: &String) -> (r: Result<(u8, u8), GameError>)
    ensures
        dims_ok(vstd::utf8::encode_utf8(s@)) ==> r == Ok::<(u8, u8), GameError>(
            (
                spec_width(vstd::utf8::encode_utf8(s@)) as u8,
                spec_height(vstd::utf8::encode_utf8(s@)) as u8,
            ),
        ),
        !dims_ok(vstd::utf8::encode_utf8(s@)) ==> r == Err::<(u8, u8), GameError>(
            GameError::InvalidDimensions,
        ),
{
    let bytes = s.as_str().as_bytes_vec();
    if bytes.len() == 0 {
        return Err(GameError::InvalidDimensions);
    }
    let rows = trimmed_rows(&bytes);
    let h = rows.len();
    if h > 255 {
        return Err(GameError::InvalidDimensions);
    }
    let toks0 = split_row(&rows[0]);
    let w = toks0.len();
    proof {
        assert(views_of(rows@)[0] == rows@[0]@);
    }
    if w < 1 || w > 255 {
        return Err(GameError::InvalidDimensions);
    }
    let mut i: usize = 0;
    while i < h
        invariant
            h == rows@.len(),
            views_of(rows@) == parsed_rows(vstd::utf8::encode_utf8(s@)),
            w == spec_width(vstd::utf8::encode_utf8(s@)),
            i <= h,
            forall|k: int|
                0 <= k < i ==> tokens_of(#[trigger] views_of(rows@)[k]).len() == w,
        decreases h - i,
    {
        let cnt = split_row(&rows[i]).len();
        proof {
            assert(views_of(rows@)[i as int] == rows@[i as int]@);
        }
        if cnt != w {
            return Err(GameError::InvalidDimensions);
        }
        i = i + 1;
    }
    Ok((w as u8, h as u8))
}

/// Prefix length facts: the prefix is in range and made of filled slots.
proof fn lemma_some_prefix<T>(slots: Seq<Option<T>>)
    ensures
        0 <= some_prefix_len(slots) <= slots.len(),
        forall|i: int| 0 <= i < some_prefix_len(slots) ==> (#[trigger] slots[i]) is Some,
    decreases slots.len(),
{
    if slots.len() > 0 && slots[0] is Some {
        let s2 = slots.drop_first();
        lemma_some_prefix(s2);
        assert forall|i: int| 0 <= i < some_prefix_len(slots) implies (#[trigger] slots[i]) is Some by {
            if i > 0 {
                assert(s2[i - 1] is Some);
            }
        }
    }
}

/// The prefix length is exactly the first gap.
proof fn lemma_some_prefix_char<T>(slots: Seq<Option<T>>, k: int)
    requires
        0 <= k <= slots.len(),
        forall|i: int| 0 <= i < k ==> (#[trigger] slots[i]) is Some,
        k == slots.len() || slots[k] is None,
    ensures
        some_prefix_len(slots) == k,
    decreases slots.len(),
{
    if slots.len() > 0 && slots[0] is Some {
        let s2 = slots.drop_first();
        assert forall|i: int| 0 <= i < k - 1 implies (#[trigger] s2[i]) is Some by {
            assert(s2[i] == slots[i + 1]);
        }
        if k < slots.len() {
            assert(s2[k - 1] == slots[k]);
        }
        lemma_some_prefix_char(s2, k - 1);
    }
}

/// Drop the empty slots after the filled prefix, or report a gap.
pub fn validate_continuous<T: Copy>(v: &Vec<Option<T>>) -> (r: Result<Vec<T>, GameError>)
    ensures
        is_some_prefix(v@) ==> (r matches Ok(out) && out@.len() == some_prefix_len(v@) && (forall|
            i: int,
        |
            0 <= i < out@.len() ==> v@[i] == Some(#[trigger] out@[i]))),
        !is_some_prefix(v@) ==> r == Err::<Vec<T>, GameError>(GameError::NonContiguousHistory),
{
    let n = v.len();
    let mut pl: usize = 0;
    while pl < n && v[pl].is_some()
        invariant
            n == v@.len(),
            pl <= n,
            forall|i: int| 0 <= i < pl ==> (#[trigger] v@[i]) is Some,
        decreases n - pl,
    {
        pl = pl + 1;
    }
    proof {
        lemma_some_prefix_char(v@, pl as int);
    }
    let mut j: usize = pl;
    while j < n
        invariant
            n == v@.len(),
            pl <= j <= n,
            some_prefix_len(v@) == pl,
            forall|i: int| pl <= i < j ==> (#[trigger] v@[i]) is None,
        decreases n - j,
    {
        if v[j].is_some() {
            return Err(GameError::NonContiguousHistory);
        }
        j = j + 1;
    }
    let mut out: Vec<T> = Vec::new();
    let mut i: usize = 0;
    while i < pl
        invariant
            n == v@.len(),
            pl <= n,
            some_prefix_len(v@) == pl,
            forall|k: int| 0 <= k < pl ==> (#[trigger] v@[k]) is Some,
            i <= pl,
            out@.len() == i,
            forall|k: int| 0 <= k < i ==> v@[k] == Some(#[trigger] out@[k]),
        decreases pl - i,
    {
        match v[i] {
            Some(x) => out.push(x),
            None => {
                proof {
                    assert(false);
                }
            },
        }
        i = i + 1;
    }
    Ok(out)
}

/// What one filled slot promises: in-bounds coordinates from a cell before
/// scan position `n`, and the player the turn number's parity dictates.
pub open spec fn slot_entry_ok(e: (Coords, Player), i: int, w: int, h: int, n: int) -> bool {
    &&& (e.0.0 as int) < w
    &&& (e.0.1 as int) < h
    &&& (e.0.1 as int) * w + (e.0.0 as int) < n
    &&& e.1 == (if (i + 1) % 2 == 0 {
        Player::Blue
    } else {
        Player::Red
    })
}

/// All filled slots are sound and claim pairwise distinct cells.
pub open spec fn slots_ok(slots: Seq<SlotEntry>, w: int, h: int, n: int) -> bool {
    &&& forall|i: int|
        0 <= i < slots.len() ==> ((#[trigger] slots[i]) matches Some(e) ==> slot_entry_ok(
            e,
            i,
            w,
            h,
            n,
        ))
    &&& forall|i: int, j: int|
        0 <= i < slots.len() && 0 <= j < slots.len() && i != j && (#[trigger] slots[i]) is Some
            && (#[trigger] slots[j]) is Some ==> (slots[i]->Some_0).0 != (slots[j]->Some_0).0
}

/// A successful scan leaves only sound slots behind.
proof fn lemma_scan_cells_ok(toks: Seq<Seq<u8>>, w: int, h: int, n: int, slots: Seq<SlotEntry>)
    requires
        1 <= w <= 255,
        1 <= h <= 255,
        toks.len() == w * h,
        0 <= n <= toks.len(),
        slots.len() == w * h,
        slots_ok(slots, w, h, n),
        scan_cells(toks, w, n, slots) is Ok,
    ensures
        slots_ok(scan_cells(toks, w, n, slots)->Ok_0, w, h, toks.len() as int),
        (scan_cells(toks, w, n, slots)->Ok_0).len() == slots.len(),
    decreases toks.len() - n,
{
    if n >= toks.len() {
    } else {
        let t = toks[n];
        let v = token_val(t);
        assert(all_digits(t));
        lemma_token_val_nonneg(t);
        if v == 0 {
            assert(slots_ok(slots, w, h, n + 1));
            lemma_scan_cells_ok(toks, w, h, n + 1, slots);
        } else {
            let x = n % w;
            let y = n / w;
            assert(0 <= x < w);
            assert(y < h) by (nonlinear_arith)
                requires
                    w >= 1,
                    0 <= n < w * h,
                    y == n / w,
            ;
            assert(y >= 0);
            assert(y * w + x == n) by (nonlinear_arith)
                requires
                    w >= 1,
                    n >= 0,
                    x == n % w,
                    y == n / w,
            ;
            let e = (
                ((x as u8), (y as u8)),
                if v % 2 == 0 {
                    Player::Blue
                } else {
                    Player::Red
                },
            );
            assert(((x as u8) as int) == x);
            assert(((y as u8) as int) == y);
            assert(v >= 1);
            assert(v <= slots.len());
            assert(slots[v - 1] is None);
            let slots2 = slots.update(v - 1, Some(e));
            assert(slots2.len() == slots.len());
            assert(slots2[v - 1] == Some(e));
            assert(slot_entry_ok(e, v - 1, w, h, n + 1));
            assert forall|i: int|
                0 <= i < slots2.len() implies ((#[trigger] slots2[i]) matches Some(e1)
                ==> slot_entry_ok(e1, i, w, h, n + 1)) by {
                if i != v - 1 {
                    assert(slots2[i] == slots[i]);
                }
            }
            assert forall|i: int, j: int|
                0 <= i < slots2.len() && 0 <= j < slots2.len() && i != j && (#[trigger] slots2[i]) is Some
                    && (#[trigger] slots2[j]) is Some implies (slots2[i]->Some_0).0 != (
                slots2[j]->Some_0).0 by {
                if slots2[i] is Some && slots2[j] is Some {
                    let e1 = slots2[i]->Some_0;
                    let e2 = slots2[j]->Some_0;
                    if i == v - 1 {
                        assert(slots2[j] == slots[j]);
                        assert(slot_entry_ok(e2, j, w, h, n));
                        assert((e2.0.1 as int) * w + (e2.0.0 as int) < n);
                        if e1.0 == e2.0 {
                            assert((e2.0.1 as int) * w + (e2.0.0 as int) == n);
                        }
                    } else if j == v - 1 {
                        assert(slots2[i] == slots[i]);
                        assert(slot_entry_ok(e1, i, w, h, n));
                        if e1.0 == e2.0 {
                            assert((e1.0.1 as int) * w + (e1.0.0 as int) == n);
                        }
                    } else {
                        assert(slots2[i] == slots[i]);
                        assert(slots2[j] == slots[j]);
                    }
                }
            }
            assert(slots_ok(slots2, w, h, n + 1));
            lemma_scan_cells_ok(toks, w, h, n + 1, slots2);
        }
    }
}

/// A decoded history places pairwise distinct, in-bounds cells with the
/// players' strict alternation.
pub open spec fn entries_ok(entries: Seq<(Coords, Player)>, w: int, h: int) -> bool {
    &&& entries.len() <= w * h
    &&& forall|i: int|
        0 <= i < entries.len() ==> ((#[trigger] entries[i]).0.0 as int) < w && ((
        entries[i]).0.1 as int) < h
    &&& forall|i: int| 0 <= i < entries.len() ==> (#[trigger] entries[i]).1 == player_of_index(i)
    &&& forall|i: int, j: int|
        0 <= i < entries.len() && 0 <= j < entries.len() && i != j ==> (#[trigger] entries[i]).0
            != (#[trigger] entries[j]).0
}

/// A parsed history is sound for its grid.
#[verifier::rlimit(80)]
proof fn lemma_parse_history_ok(s: Seq<u8>)
    requires
        parse_history(s) is Ok,
    ensures
        dims_ok(s),
        entries_ok(parse_history(s)->Ok_0, spec_width(s), spec_height(s)),
{
    let w = spec_width(s);
    let h = spec_height(s);
    let toks = flat_tokens(parsed_rows(s));
    let init = empty_slots(w, h);
    lemma_flat_tokens_len(parsed_rows(s), w);
    assert(slots_ok(init, w, h, 0));
    let slots = scan_cells(toks, w, 0, init)->Ok_0;
    lemma_scan_cells_ok(toks, w, h, 0, init);
    lemma_some_prefix(slots);
    let entries = parse_history(s)->Ok_0;
    assert forall|i: int| 0 <= i < entries.len() implies slots[i] == Some(#[trigger] entries[i]) by {
        assert(slots[i] is Some);
    }
    assert forall|i: int| 0 <= i < entries.len() implies (#[trigger] entries[i]).1
        == player_of_index(i) by {
        assert(slot_entry_ok(entries[i], i, w, h, toks.len() as int));
    }
    assert forall|i: int, j: int|
        0 <= i < entries.len() && 0 <= j < entries.len() && i != j implies (#[trigger] entries[i]).0
        != (#[trigger] entries[j]).0 by {
        assert(slots[i] == Some(entries[i]));
        assert(slots[j] == Some(entries[j]));
    }
    assert forall|i: int|
        0 <= i < entries.len() implies ((#[trigger] entries[i]).0.0 as int) < w && ((
        entries[i]).0.1 as int) < h by {
        assert(slot_entry_ok(entries[i], i, w, h, toks.len() as int));
    }
}

/// A rectangular grid of `h` rows of `w` tokens has `h * w` tokens in all.
proof fn lemma_flat_tokens_len(rows: Seq<Seq<u8>>, w: int)
    requires
        forall|i: int| 0 <= i < rows.len() ==> tokens_of(#[trigger] rows[i]).len() == w,
    ensures
        flat_tokens(rows).len() == rows.len() * w,
    decreases rows.len(),
{
    if rows.len() == 0 {
    } else {
        let r2 = rows.drop_last();
        assert forall|i: int| 0 <= i < r2.len() implies tokens_of(#[trigger] r2[i]).len() == w by {
            assert(r2[i] == rows[i]);
        }
        lemma_flat_tokens_len(r2, w);
        assert(tokens_of(rows.last()).len() == w);
        assert((rows.len() - 1) * w + w == rows.len() * w) by (nonlinear_arith);
    }
}

/// Replaying a sound history gives a well-formed board whose history is
/// exactly the decoded one.
proof fn lemma_replayed_ok(w: int, h: int, entries: Seq<(Coords, Player)>)
    requires
        1 <= w <= 255,
        1 <= h <= 255,
        entries_ok(entries, w, h),
    ensures
        replayed(w, h, entries).wf_board(),
        replayed(w, h, entries).size_x == w,
        replayed(w, h, entries).size_y == h,
        replayed(w, h, entries).winner is None,
        replayed(w, h, entries).hist == entries.map_values(|e: (Coords, Player)| e.0),
        replayed(w, h, entries).field.len() == w * h,
    decreases entries.len(),
{
    if entries.len() == 0 {
        let b = board_new(w, h);
        assert forall|x: int, y: int|
            b.in_bounds(x, y) implies !((#[trigger] b.cell_at(x, y)) is Some) by {
            lemma_idx_in_range(b, x, y);
        }
        assert(b.wf_board());
        assert(b.hist =~= entries.map_values(|e: (Coords, Player)| e.0));
    } else {
        let pre = entries.drop_last();
        assert(entries_ok(pre, w, h)) by {
            assert forall|i: int|
                0 <= i < pre.len() implies ((#[trigger] pre[i]).0.0 as int) < w && ((
                pre[i]).0.1 as int) < h by {
                assert(pre[i] == entries[i]);
            }
            assert forall|i: int| 0 <= i < pre.len() implies (#[trigger] pre[i]).1
                == player_of_index(i) by {
                assert(pre[i] == entries[i]);
            }
            assert forall|i: int, j: int|
                0 <= i < pre.len() && 0 <= j < pre.len() && i != j implies (#[trigger] pre[i]).0
                != (#[trigger] pre[j]).0 by {
                assert(pre[i] == entries[i]);
                assert(pre[j] == entries[j]);
            }
        }
        lemma_replayed_ok(w, h, pre);
        let b = replayed(w, h, pre);
        let e = entries.last();
        // The landing cell of the new entry is still empty.
        assert(b.cell_of(e.0) is None) by {
            if b.cell_of(e.0) is Some {
                lemma_idx_in_range(b, e.0.0 as int, e.0.1 as int);
                assert(b.filled_by_hist(e.0.0 as int, e.0.1 as int));
                let i = choose|i: int|
                    0 <= i < b.depth() && #[trigger] b.hist_at(i) == (e.0.0, e.0.1);
                assert(b.hist_at(i) == pre.map_values(|q: (Coords, Player)| q.0)[i]);
                assert(entries[i].0 == e.0);
                assert(entries[i].0 != entries[entries.len() - 1].0);
            }
        }
        assert(e.1 == player_of_index(b.depth()));
        lemma_place_wf(b, e.0, e.1);
        let stepped = replayed(w, h, entries);
        assert(stepped =~= Board { winner: b.winner, ..b.placed(e.0, e.1) });
        crate::model::lemma_wf_board_ignores_cache(b.placed(e.0, e.1), stepped);
        assert(stepped.hist =~= entries.map_values(|q: (Coords, Player)| q.0));
    }
}

/// A digit token's value is non-negative.
proof fn lemma_token_val_nonneg(t: Seq<u8>)
    requires
        all_digits(t),
    ensures
        token_val(t) >= 0,
    decreases t.len(),
{
    if t.len() > 0 {
        assert forall|i: int| 0 <= i < t.drop_last().len() implies is_digit(
            #[trigger] t.drop_last()[i],
        ) by {
            assert(t.drop_last()[i] == t[i]);
        }
        lemma_token_val_nonneg(t.drop_last());
        assert(token_val(t.drop_last()) * 10 >= 0) by (nonlinear_arith)
            requires
                token_val(t.drop_last()) >= 0,
        ;
    }
}

/// How an executable accumulator may stand for a token's (unbounded)
/// value: exact up to the cap, and past the cap when the value is.
pub open spec fn acc_stands_for(acc: u32, v: int) -> bool {
    &&& v <= 66000 ==> acc == v
    &&& v > 66000 ==> acc > 66000
}

/// Parse a digit token; values are capped far above any turn number a
/// board could hold.
fn parse_token(tok: &Vec<u8>) -> (r: Option<u32>)
    ensures
        r is Some <==> (all_digits(tok@) && tok@.len() >= 1),
        r matches Some(acc) ==> acc_stands_for(acc, token_val(tok@)),
{
    if tok.len() == 0 {
        return None;
    }
    let mut acc: u32 = 0;
    let mut bi: usize = 0;
    proof {
        assert(tok@.take(0) =~= Seq::<u8>::empty());
    }
    while bi < tok.len()
        invariant
            bi <= tok@.len(),
            forall|i: int| 0 <= i < bi ==> is_digit(#[trigger] tok@[i]),
            token_val(tok@.take(bi as int)) >= 0,
            acc_stands_for(acc, token_val(tok@.take(bi as int))),
            acc <= 660010,
        decreases tok@.len() - bi,
    {
        let b = tok[bi];
        if !digit(b) {
            proof {
                assert(!all_digits(tok@));
            }
            return None;
        }
        proof {
            assert(tok@.take(bi + 1).drop_last() =~= tok@.take(bi as int));
            assert(token_val(tok@.take(bi + 1)) == token_val(tok@.take(bi as int)) * 10 + (b - 48));
        }
        if acc > 66000 {
            proof {
                assert(token_val(tok@.take(bi as int)) * 10 + (b - 48) > 66000) by (nonlinear_arith)
                    requires
                        token_val(tok@.take(bi as int)) > 66000,
                        b >= 48,
                ;
            }
        } else {
            acc = acc * 10 + (b - 48) as u32;
        }
        bi = bi + 1;
    }
    proof {
        assert(tok@.take(tok@.len() as int) =~= tok@);
    }
    Some(acc)
}

/// Build the inferred history of the textual form: the landing cell and
/// player of each turn, in turn order.
pub fn deserialize_intermediate_history(s: &String) -> (r: Result<Vec<(Coords, Player)>, GameError>)
    ensures
        match parse_history(vstd::utf8::encode_utf8(s@)) {
            Ok(es) => r matches Ok(v) && v@ == es,
            Err(e) => r == Err::<Vec<(Coords, Player)>, GameError>(e),
        },
{
    let ghost sb = vstd::utf8::encode_utf8(s@);
    let (w8, h8) = match validate_serialized_dimensions(s) {
        Ok(d) => d,
        Err(e) => {
            return Err(e);
        },
    };
    let w = w8 as usize;
    let h = h8 as usize;
    let bytes = s.as_str().as_bytes_vec();
    let rows = trimmed_rows(&bytes);
    let ghost rvs = views_of(rows@);

    // Gather all tokens in reading order.
    let mut flat: Vec<Vec<u8>> = Vec::new();
    let mut ri: usize = 0;
    proof {
        assert(views_of(flat@) =~= flat_tokens(rvs.take(0)));
    }
    while ri < rows.len()
        invariant
            dims_ok(sb),
            rvs == parsed_rows(sb),
            views_of(rows@) == rvs,
            w == spec_width(sb),
            h == spec_height(sb),
            rows@.len() == h,
            ri <= h,
            views_of(flat@) == flat_tokens(rvs.take(ri as int)),
            flat@.len() == ri * w,
        decreases rows@.len() - ri,
    {
        let toks = split_row(&rows[ri]);
        proof {
            assert(rvs[ri as int] == rows@[ri as int]@);
            assert(views_of(toks@) == tokens_of(rvs[ri as int]));
            assert(tokens_of(rvs[ri as int]).len() == w);
        }
        let mut ti: usize = 0;
        let ghost flat_pre = views_of(flat@);
        while ti < toks.len()
            invariant
                ti <= toks@.len(),
                views_of(flat@) =~= flat_pre + views_of(toks@).take(ti as int),
            decreases toks@.len() - ti,
        {
            let mut t: Vec<u8> = Vec::new();
            let tok = &toks[ti];
            let mut bi: usize = 0;
            while bi < tok.len()
                invariant
                    bi <= tok@.len(),
                    t@ == tok@.take(bi as int),
                decreases tok@.len() - bi,
            {
                t.push(tok[bi]);
                proof {
                    assert(t@ =~= tok@.take(bi + 1));
                }
                bi = bi + 1;
            }
            proof {
                assert(t@ =~= tok@);
            }
            let ghost tv2 = t@;
            let ghost flat_before = flat@;
            flat.push(t);
            proof {
                assert(tv2 == toks@[ti as int]@);
                assert(flat@[flat@.len() - 1]@ == tv2);
                assert forall|k: int| 0 <= k < flat@.len() implies #[trigger] views_of(flat@)[k]
                    == views_of(flat_before).push(tv2)[k] by {
                    if k < flat_before.len() {
                        assert(flat@[k] == flat_before[k]);
                    }
                }
                assert(views_of(flat@) =~= views_of(flat_before).push(tv2));
                assert(views_of(toks@).take(ti + 1) =~= views_of(toks@).take(ti as int).push(
                    toks@[ti as int]@,
                ));
                assert(views_of(flat_before).push(tv2) =~= flat_pre + views_of(toks@).take(ti + 1));
                assert(views_of(flat@) =~= flat_pre + views_of(toks@).take(ti + 1));
            }
            ti = ti + 1;
        }
        proof {
            assert(views_of(toks@).take(toks@.len() as int) =~= views_of(toks@));
            assert(rvs.take(ri + 1).drop_last() =~= rvs.take(ri as int));
            assert(rvs.take(ri + 1).last() == rvs[ri as int]);
            assert(views_of(flat@) =~= flat_tokens(rvs.take(ri + 1)));
            assert(views_of(flat@).len() == flat@.len());
            assert(flat@.len() == ri * w + w);
            assert((ri as int + 1) * w == ri * w + w) by (nonlinear_arith);
        }
        ri = ri + 1;
    }
    proof {
        assert(rvs.take(rvs.len() as int) =~= rvs);
    }
    let ghost toks_spec = flat_tokens(parsed_rows(sb));

    // Scan the cells in reading order, filling the turn slots.
    proof {
        assert((w as int) * (h as int) <= 255 * 255) by (nonlinear_arith)
            requires
                w as int <= 255,
                h as int <= 255,
        ;
    }
    let cells = w * h;
    let mut slots: Vec<SlotEntry> = Vec::new();
    let mut si: usize = 0;
    while si < cells
        invariant
            si <= cells,
            slots@.len() == si,
            forall|i: int| 0 <= i < slots@.len() ==> (#[trigger] slots@[i]) is None,
        decreases cells - si,
    {
        slots.push(None);
        si = si + 1;
    }
    let ghost init = empty_slots(spec_width(sb), spec_height(sb));
    proof {
        assert(slots@ =~= init);
    }
    let mut n: usize = 0;
    while n < flat.len()
        invariant
            dims_ok(sb),
            w == spec_width(sb),
            h == spec_height(sb),
            1 <= w <= 255,
            1 <= h <= 255,
            cells == w * h,
            cells <= 65025,
            sb == vstd::utf8::encode_utf8(s@),
            toks_spec == flat_tokens(parsed_rows(sb)),
            init == empty_slots(spec_width(sb), spec_height(sb)),
            views_of(flat@) == toks_spec,
            flat@.len() == h * w,
            slots@.len() == cells,
            n <= flat@.len(),
            scan_cells(toks_spec, w as int, 0, init) == scan_cells(
                toks_spec,
                w as int,
                n as int,
                slots@,
            ),
        decreases flat@.len() - n,
    {
        let tok = &flat[n];
        proof {
            assert(toks_spec[n as int] == flat@[n as int]@);
        }
        let acc = match parse_token(tok) {
            Some(a) => a,
            None => {
                proof {
                    assert(scan_cells(toks_spec, w as int, n as int, slots@) == Err::<
                        Seq<SlotEntry>,
                        GameError,
                    >(GameError::InvalidToken));
                    assert(scan_cells(toks_spec, w as int, 0, init) == Err::<
                        Seq<SlotEntry>,
                        GameError,
                    >(GameError::InvalidToken));
                    assert(spec_width(sb) == w as int);
                    assert(spec_height(sb) == h as int);
                    assert(scan_cells(
                        flat_tokens(parsed_rows(sb)),
                        spec_width(sb),
                        0,
                        empty_slots(spec_width(sb), spec_height(sb)),
                    ) == Err::<Seq<SlotEntry>, GameError>(GameError::InvalidToken));
                    assert(parse_history(sb) == Err::<Seq<(Coords, Player)>, GameError>(
                        GameError::InvalidToken,
                    ));
                }
                return Err(GameError::InvalidToken);
            },
        };
        let ghost v = token_val(tok@);
        proof {
            lemma_token_val_nonneg(tok@);
        }

        if acc == 0 {
            proof {
                assert(v == 0);
                assert(scan_cells(toks_spec, w as int, n as int, slots@) == scan_cells(
                    toks_spec,
                    w as int,
                    n + 1,
                    slots@,
                ));
            }
        } else if acc as usize > cells {
            proof {
                assert(v > cells);
                assert(scan_cells(toks_spec, w as int, n as int, slots@) == Err::<
                    Seq<SlotEntry>,
                    GameError,
                >(GameError::NonContiguousHistory));
                assert(parse_history(sb) == Err::<Seq<(Coords, Player)>, GameError>(
                    GameError::NonContiguousHistory,
                ));
            }
            return Err(GameError::NonContiguousHistory);
        } else {
            proof {
                assert(v == acc);
            }
            let vi = acc as usize;
            match slots[vi - 1] {
                Some(_) => {
                    proof {
                        assert(scan_cells(toks_spec, w as int, n as int, slots@) == Err::<
                            Seq<SlotEntry>,
                            GameError,
                        >(GameError::DuplicateTurn));
                    }
                    return Err(GameError::DuplicateTurn);
                },
                None => {
                    let x = n % w;
                    let y = n / w;
                    proof {
                        assert((n as int) / (w as int) < h as int) by (nonlinear_arith)
                            requires
                                w >= 1,
                                (n as int) < (w as int) * (h as int),
                        ;
                    }
                    let player = if acc % 2 == 0 {
                        Player::Blue
                    } else {
                        Player::Red
                    };
                    slots[vi - 1] = Some(((x as u8, y as u8), player));
                    proof {
                        assert(v % 2 == 0 <==> acc % 2 == 0);
                        assert(scan_cells(toks_spec, w as int, 0, init) == scan_cells(
                            toks_spec,
                            w as int,
                            n + 1,
                            slots@,
                        ));
                    }
                },
            }
        }
        n = n + 1;
    }
    proof {
        assert(scan_cells(toks_spec, w as int, flat@.len() as int, slots@) == Ok::<
            Seq<SlotEntry>,
            GameError,
        >(slots@));
    }
    let entries = match validate_continuous(&slots) {
        Ok(es) => es,
        Err(e) => {
            return Err(e);
        },
    };
    proof {
        lemma_some_prefix(slots@);
        assert(entries@ =~= some_prefix_values(slots@, ((0u8, 0u8), Player::Red)));
    }
    Ok(entries)
}

impl State {
    /// Decode the textual form: validate the grid, infer the history from
    /// the turn numbers, write the cells by their literal coordinates, and
    /// compute the winner from the last move.
    pub fn deserialize(s: &GameStateSerialized) -> (r: Result<State, GameError>)
        ensures
            parse_game(vstd::utf8::encode_utf8(s.0@)) is Ok <==> r is Ok,
            parse_game(vstd::utf8::encode_utf8(s.0@)) matches Ok(m) ==> (r matches Ok(st) && st@
                == m && st@.wf()),
            parse_game(vstd::utf8::encode_utf8(s.0@)) matches Err(e) ==> r == Err::<
                State,
                GameError,
            >(e),
    {
        let ghost sb = vstd::utf8::encode_utf8(s.0@);
        let (w8, h8) = match validate_serialized_dimensions(&s.0) {
            Ok(d) => d,
            Err(e) => {
                return Err(e);
            },
        };
        let entries = match deserialize_intermediate_history(&s.0) {
            Ok(es) => es,
            Err(e) => {
                return Err(e);
            },
        };
        proof {
            lemma_parse_history_ok(sb);
        }
        let mut st = State::new(w8, h8);
        proof {
            assert(st@ =~= replayed(w8 as int, h8 as int, entries@.take(0)));
            lemma_replayed_ok(w8 as int, h8 as int, entries@);
        }
        let mut i: usize = 0;
        while i < entries.len()
            invariant
                entries_ok(entries@, w8 as int, h8 as int),
                1 <= w8 as int <= 255,
                1 <= h8 as int <= 255,
                i <= entries@.len(),
                st.size_x == w8,
                st@ == replayed(w8 as int, h8 as int, entries@.take(i as int)),
            decreases entries@.len() - i,
        {
            let e = entries[i];
            let ghost pree = entries@.take(i as int);
            proof {
                assert(entries_ok(pree, w8 as int, h8 as int)) by {
                    assert forall|k: int|
                        0 <= k < pree.len() implies ((#[trigger] pree[k]).0.0 as int) < w8 as int
                        && ((pree[k]).0.1 as int) < h8 as int by {
                        assert(pree[k] == entries@[k]);
                    }
                    assert forall|k: int| 0 <= k < pree.len() implies (#[trigger] pree[k]).1
                        == player_of_index(k) by {
                        assert(pree[k] == entries@[k]);
                    }
                    assert forall|k: int, j: int|
                        0 <= k < pree.len() && 0 <= j < pree.len() && k != j implies (
                        #[trigger] pree[k]).0 != (#[trigger] pree[j]).0 by {
                        assert(pree[k] == entries@[k]);
                        assert(pree[j] == entries@[j]);
                    }
                }
                lemma_replayed_ok(w8 as int, h8 as int, pree);
                lemma_idx_in_range(st@, e.0.0 as int, e.0.1 as int);
            }
            st.coords_history.push(e.0);
            let k = calc_field_index(w8, e.0.0, e.0.1);
            st.field[k] = Some(e.1);
            proof {
                assert(entries@.take(i + 1).drop_last() =~= entries@.take(i as int));
                assert(entries@.take(i + 1).last() == entries@[i as int]);
                assert(st@ =~= replayed(w8 as int, h8 as int, entries@.take(i + 1)));
            }
            i = i + 1;
        }
        proof {
            assert(entries@.take(entries@.len() as int) =~= entries@);
            lemma_replayed_ok(w8 as int, h8 as int, entries@);
        }
        let w = st.compute_winner();
        let ghost raw = st@;
        st.winner_cache = w;
        proof {
            assert(st@ =~= Board { winner: raw.computed_winner(), ..raw });
            crate::model::lemma_wf_board_ignores_cache(raw, st@);
            match st@.winner {
                Some(p) => {
                    let lc = st@.last_coords();
                    crate::model::lemma_wins_at_ignores_cache(
                        raw,
                        st@,
                        p,
                        lc.0 as int,
                        lc.1 as int,
                    );
                },
                None => {},
            }
            assert(st@.wf());
        }
        Ok(st)
    }
}

/// Joining parts whose bytes satisfy `p` with a separator satisfying `p`
/// yields only bytes satisfying `p`.
proof fn lemma_join_bytes_all(parts: Seq<Seq<u8>>, sep: u8, p: spec_fn(u8) -> bool)
    requires
        p(sep),
        forall|i: int, j: int|
            0 <= i < parts.len() && 0 <= j < parts[i].len() ==> p(#[trigger] parts[i][j]),
    ensures
        forall|k: int|
            0 <= k < join_bytes(parts, sep).len() ==> p(#[trigger] join_bytes(parts, sep)[k]),
    decreases parts.len(),
{
    if parts.len() <= 1 {
    } else {
        assert forall|i: int, j: int|
            0 <= i < parts.drop_last().len() && 0 <= j < parts.drop_last()[i].len() implies p(
            #[trigger] parts.drop_last()[i][j],
        ) by {
            assert(parts.drop_last()[i] == parts[i]);
        }
        lemma_join_bytes_all(parts.drop_last(), sep, p);
        assert forall|k: int|
            0 <= k < join_bytes(parts, sep).len() implies p(#[trigger] join_bytes(parts, sep)[k]) by {
            let pre = join_bytes(parts.drop_last(), sep);
            if k < pre.len() {
            } else if k == pre.len() {
                assert(join_bytes(parts, sep)[k] == sep);
            } else {
                assert(join_bytes(parts, sep)[k] == parts.last()[k - pre.len() - 1]);
                assert(parts.last() == parts[parts.len() - 1]);
            }
        }
    }
}

/// Joining non-empty parts starts with the first part's first byte and
/// ends with the last part's last byte.
proof fn lemma_join_bytes_ends(parts: Seq<Seq<u8>>, sep: u8)
    requires
        parts.len() >= 1,
        forall|i: int| 0 <= i < parts.len() ==> (#[trigger] parts[i]).len() >= 1,
    ensures
        join_bytes(parts, sep).len() >= 1,
        join_bytes(parts, sep)[0] == parts[0][0],
        join_bytes(parts, sep).last() == parts.last().last(),
    decreases parts.len(),
{
    if parts.len() == 1 {
    } else {
        assert forall|i: int| 0 <= i < parts.drop_last().len() implies (#[trigger] parts.drop_last(
        )[i]).len() >= 1 by {
            assert(parts.drop_last()[i] == parts[i]);
        }
        lemma_join_bytes_ends(parts.drop_last(), sep);
        assert(parts.drop_last()[0] == parts[0]);
        let pre = join_bytes(parts.drop_last(), sep);
        assert(join_bytes(parts, sep)[0] == pre[0]);
        assert(join_bytes(parts, sep).last() == parts.last().last());
    }
}

/// Trimming does nothing to a buffer whose ends are not whitespace.
proof fn lemma_trim_noop(s: Seq<u8>)
    requires
        s.len() >= 1,
        !is_ws(s[0]),
        !is_ws(s.last()),
    ensures
        trim_ws(s) == s,
{
    assert(trim_front(s) == s);
    assert(trim_back(s) == s);
}

/// A buffer without LF splits into just itself.
proof fn lemma_split_nl_single(s: Seq<u8>)
    requires
        forall|i: int| 0 <= i < s.len() ==> (#[trigger] s[i]) != 10,
    ensures
        split_nl(s) == seq![s],
    decreases s.len(),
{
    if s.len() == 0 {
        assert(split_nl(s) =~~= seq![s]);
    } else {
        assert forall|i: int| 0 <= i < s.drop_last().len() implies (#[trigger] s.drop_last()[i])
            != 10 by {
            assert(s.drop_last()[i] == s[i]);
        }
        lemma_split_nl_single(s.drop_last());
        assert(s.last() != 10);
        assert(split_nl(s) =~~= seq![s.drop_last().push(s.last())]);
        assert(s.drop_last().push(s.last()) =~= s);
        assert(split_nl(s) =~~= seq![s]);
    }
}

/// Appending an LF and an LF-free line adds exactly one line to the split.
proof fn lemma_split_nl_append(a: Seq<u8>, b: Seq<u8>)
    requires
        forall|i: int| 0 <= i < b.len() ==> (#[trigger] b[i]) != 10,
    ensures
        split_nl(a + seq![10u8] + b) == split_nl(a) + seq![b],
    decreases b.len(),
{
    if b.len() == 0 {
        assert((a + seq![10u8] + b) =~= a.push(10u8));
        assert(a.push(10u8).drop_last() =~= a);
        assert(split_nl(a.push(10u8)) =~~= split_nl(a) + seq![Seq::<u8>::empty()]);
        assert(split_nl(a + seq![10u8] + b) =~~= split_nl(a) + seq![b]);
    } else {
        let b2 = b.drop_last();
        assert forall|i: int| 0 <= i < b2.len() implies (#[trigger] b2[i]) != 10 by {
            assert(b2[i] == b[i]);
        }
        lemma_split_nl_append(a, b2);
        let s = a + seq![10u8] + b;
        assert(s.drop_last() =~= a + seq![10u8] + b2);
        assert(s.last() == b.last());
        assert(b.last() != 10);
        let r = split_nl(a + seq![10u8] + b2);
        assert(r == split_nl(a) + seq![b2]);
        assert(r.len() >= 1);
        assert(r.last() == b2);
        assert(split_nl(s) =~~= r.update(r.len() - 1, b2.push(b.last())));
        assert(b2.push(b.last()) =~= b);
        assert(split_nl(s) =~~= split_nl(a) + seq![b]);
    }
}

/// Joining LF-free lines with LF and splitting gives the lines back.
proof fn lemma_split_join(parts: Seq<Seq<u8>>, sep: u8)
    requires
        sep == 10,
        parts.len() >= 1,
        forall|i: int, j: int|
            0 <= i < parts.len() && 0 <= j < parts[i].len() ==> (#[trigger] parts[i][j]) != 10,
    ensures
        split_nl(join_bytes(parts, sep)) == parts,
    decreases parts.len(),
{
    if parts.len() == 1 {
        assert forall|j: int| 0 <= j < parts[0].len() implies (#[trigger] parts[0][j]) != 10 by {}
        lemma_split_nl_single(parts[0]);
        assert(split_nl(join_bytes(parts, sep)) =~~= parts);
    } else {
        assert forall|i: int, j: int|
            0 <= i < parts.drop_last().len() && 0 <= j < parts.drop_last()[i].len() implies (
        #[trigger] parts.drop_last()[i][j]) != 10 by {
            assert(parts.drop_last()[i] == parts[i]);
        }
        lemma_split_join(parts.drop_last(), sep);
        assert forall|j: int| 0 <= j < parts.last().len() implies (#[trigger] parts.last()[j])
            != 10 by {
            assert(parts.last() == parts[parts.len() - 1]);
        }
        lemma_split_nl_append(join_bytes(parts.drop_last(), sep), parts.last());
        assert(split_nl(join_bytes(parts, sep)) =~~= parts.drop_last() + seq![parts.last()]);
        assert(parts.drop_last() + seq![parts.last()] =~= parts);
    }
}

/// A non-empty run of non-whitespace bytes is one token.
proof fn lemma_tokens_single(s: Seq<u8>)
    requires
        s.len() >= 1,
        forall|i: int| 0 <= i < s.len() ==> !is_ws(#[trigger] s[i]),
    ensures
        tokens_of(s) == seq![s],
    decreases s.len(),
{
    if s.len() == 1 {
        assert(s.drop_last() =~= Seq::<u8>::empty());
        assert(tokens_of(Seq::<u8>::empty()) =~= Seq::<Seq<u8>>::empty());
        assert(tokens_of(s) =~~= seq![s]);
    } else {
        assert forall|i: int| 0 <= i < s.drop_last().len() implies !is_ws(
            #[trigger] s.drop_last()[i],
        ) by {
            assert(s.drop_last()[i] == s[i]);
        }
        lemma_tokens_single(s.drop_last());
        assert(!is_ws(s[s.len() - 2]));
        assert(tokens_of(s) =~~= seq![s.drop_last().push(s.last())]);
        assert(s.drop_last().push(s.last()) =~= s);
        assert(tokens_of(s) =~~= seq![s]);
    }
}

/// A space and a whitespace-free token append one token to the row's list.
proof fn lemma_tokens_append(a: Seq<u8>, t: Seq<u8>)
    requires
        t.len() >= 1,
        forall|i: int| 0 <= i < t.len() ==> !is_ws(#[trigger] t[i]),
    ensures
        tokens_of(a + seq![32u8] + t) == tokens_of(a) + seq![t],
    decreases t.len(),
{
    if t.len() == 1 {
        let s = a + seq![32u8] + t;
        assert(s.drop_last() =~= a.push(32u8));
        assert(a.push(32u8).drop_last() =~= a);
        assert(is_ws(32u8));
        assert(tokens_of(a.push(32u8)) == tokens_of(a));
        assert(s.last() == t[0]);
        assert(!is_ws(t[0]));
        assert(is_ws(s[s.len() - 2]));
        assert(tokens_of(s) =~~= tokens_of(a) + seq![seq![t[0]]]);
        assert(seq![t[0]] =~= t);
        assert(tokens_of(s) =~~= tokens_of(a) + seq![t]);
    } else {
        let t2 = t.drop_last();
        assert forall|i: int| 0 <= i < t2.len() implies !is_ws(#[trigger] t2[i]) by {
            assert(t2[i] == t[i]);
        }
        lemma_tokens_append(a, t2);
        let s = a + seq![32u8] + t;
        assert(s.drop_last() =~= a + seq![32u8] + t2);
        assert(s.last() == t.last());
        assert(!is_ws(t.last()));
        assert(s[s.len() - 2] == t2.last());
        assert(!is_ws(t2.last()));
        let r = tokens_of(a + seq![32u8] + t2);
        assert(r == tokens_of(a) + seq![t2]);
        assert(r.len() >= 1);
        assert(r.last() == t2);
        assert(tokens_of(s) =~~= r.update(r.len() - 1, t2.push(t.last())));
        assert(t2.push(t.last()) =~= t);
        assert(tokens_of(s) =~~= tokens_of(a) + seq![t]);
    }
}

/// Joining whitespace-free tokens with single spaces and tokenizing gives
/// the tokens back.
proof fn lemma_tokens_join(toks: Seq<Seq<u8>>)
    requires
        forall|i: int| 0 <= i < toks.len() ==> (#[trigger] toks[i]).len() >= 1,
        forall|i: int, j: int|
            0 <= i < toks.len() && 0 <= j < toks[i].len() ==> !is_ws(#[trigger] toks[i][j]),
    ensures
        tokens_of(join_bytes(toks, 32)) == toks,
    decreases toks.len(),
{
    if toks.len() == 0 {
        assert(tokens_of(join_bytes(toks, 32)) =~~= toks);
    } else if toks.len() == 1 {
        lemma_tokens_single(toks[0]);
        assert(tokens_of(join_bytes(toks, 32)) =~~= toks);
    } else {
        assert forall|i: int| 0 <= i < toks.drop_last().len() implies (#[trigger] toks.drop_last(
        )[i]).len() >= 1 by {
            assert(toks.drop_last()[i] == toks[i]);
        }
        assert forall|i: int, j: int|
            0 <= i < toks.drop_last().len() && 0 <= j < toks.drop_last()[i].len() implies !is_ws(
            #[trigger] toks.drop_last()[i][j],
        ) by {
            assert(toks.drop_last()[i] == toks[i]);
        }
        lemma_tokens_join(toks.drop_last());
        assert forall|j: int| 0 <= j < toks.last().len() implies !is_ws(
            #[trigger] toks.last()[j],
        ) by {
            assert(toks.last() == toks[toks.len() - 1]);
        }
        lemma_tokens_append(join_bytes(toks.drop_last(), 32), toks.last());
        assert(tokens_of(join_bytes(toks, 32)) =~~= toks.drop_last() + seq![toks.last()]);
        assert(toks.drop_last() + seq![toks.last()] =~= toks);
    }
}

/// A rendered number reads back as itself.
proof fn lemma_dec_digits_val(n: int)
    requires
        n >= 0,
    ensures
        token_val(dec_digits(n)) == n,
    decreases n,
{
    if n <= 9 {
        assert(dec_digits(n).drop_last() =~= Seq::<u8>::empty());
        assert(token_val(Seq::<u8>::empty()) == 0);
        assert(dec_digits(n).last() == (48 + n) as u8);
    } else {
        lemma_dec_digits_val(n / 10);
        assert(dec_digits(n).drop_last() =~= dec_digits(n / 10));
        assert(n / 10 * 10 + n % 10 == n) by (nonlinear_arith)
            requires
                n >= 0,
        ;
    }
}

/// Row-major cell index of a coordinate, for a board of width `sx`.
pub open spec fn cell_index(sx: int, c: Coords) -> int {
    (c.1 as int) * sx + c.0 as int
}

proof fn lemma_cell_index_range(sx: int, sy: int, c: Coords)
    requires
        1 <= sx,
        1 <= sy,
        (c.0 as int) < sx,
        (c.1 as int) < sy,
    ensures
        0 <= cell_index(sx, c) < sx * sy,
{
    assert(0 <= (c.1 as int) * sx + (c.0 as int) < sx * sy) by (nonlinear_arith)
        requires
            1 <= sx,
            1 <= sy,
            0 <= (c.0 as int) < sx,
            0 <= (c.1 as int) < sy,
    ;
}

proof fn lemma_cell_index_inj(sx: int, sy: int, c1: Coords, c2: Coords)
    requires
        1 <= sx,
        1 <= sy,
        (c1.0 as int) < sx,
        (c1.1 as int) < sy,
        (c2.0 as int) < sx,
        (c2.1 as int) < sy,
        cell_index(sx, c1) == cell_index(sx, c2),
    ensures
        c1 == c2,
{
    assert(c1.0 == c2.0 && c1.1 == c2.1) by (nonlinear_arith)
        requires
            1 <= sx,
            0 <= (c1.0 as int) < sx,
            0 <= (c2.0 as int) < sx,
            (c1.1 as int) * sx + c1.0 as int == (c2.1 as int) * sx + c2.0 as int,
    ;
}

/// The turn-number grid holds `i + 1` at the cell of move `i` and `0`
/// elsewhere.
proof fn lemma_number_grid_char(sx: int, sy: int, hist: Seq<Coords>)
    requires
        1 <= sx <= 255,
        1 <= sy <= 255,
        forall|i: int|
            0 <= i < hist.len() ==> ((#[trigger] hist[i]).0 as int) < sx && ((
            hist[i]).1 as int) < sy,
        forall|i: int, j: int|
            0 <= i < hist.len() && 0 <= j < hist.len() && i != j ==> (#[trigger] hist[i])
                != (#[trigger] hist[j]),
    ensures
        number_grid(sx, sx * sy, hist).len() == sx * sy,
        forall|i: int|
            0 <= i < hist.len() ==> number_grid(sx, sx * sy, hist)[cell_index(
                sx,
                #[trigger] hist[i],
            )] == i + 1,
        forall|k: int|
            0 <= k < sx * sy && #[trigger] number_grid(sx, sx * sy, hist)[k] != 0 ==> 1
                <= number_grid(sx, sx * sy, hist)[k] <= hist.len() && cell_index(
                sx,
                hist[number_grid(sx, sx * sy, hist)[k] - 1],
            ) == k,
    decreases hist.len(),
{
    assert(0 < sx * sy) by (nonlinear_arith)
        requires
            1 <= sx,
            1 <= sy,
    ;
    let g = number_grid(sx, sx * sy, hist);
    if hist.len() == 0 {
    } else {
        let h2 = hist.drop_last();
        assert forall|i: int|
            0 <= i < h2.len() implies ((#[trigger] h2[i]).0 as int) < sx && ((
        h2[i]).1 as int) < sy by {
            assert(h2[i] == hist[i]);
        }
        assert forall|i: int, j: int|
            0 <= i < h2.len() && 0 <= j < h2.len() && i != j implies (#[trigger] h2[i])
            != (#[trigger] h2[j]) by {
            assert(h2[i] == hist[i]);
            assert(h2[j] == hist[j]);
        }
        lemma_number_grid_char(sx, sy, h2);
        let g2 = number_grid(sx, sx * sy, h2);
        let cl = hist.last();
        let kl = cell_index(sx, cl);
        lemma_cell_index_range(sx, sy, cl);
        assert(g == g2.update(kl, hist.len() as int));
        assert forall|i: int|
            0 <= i < hist.len() implies g[cell_index(sx, #[trigger] hist[i])] == i + 1 by {
            lemma_cell_index_range(sx, sy, hist[i]);
            if i < hist.len() - 1 {
                if cell_index(sx, hist[i]) == kl {
                    lemma_cell_index_inj(sx, sy, hist[i], cl);
                    assert(hist[i] != hist[hist.len() - 1]);
                }
                assert(h2[i] == hist[i]);
                assert(g[cell_index(sx, hist[i])] == g2[cell_index(sx, h2[i])]);
            } else {
                assert(g[kl] == hist.len() as int);
            }
        }
        assert forall|k: int|
            0 <= k < sx * sy && #[trigger] g[k] != 0 implies 1 <= g[k] <= hist.len() && cell_index(
            sx,
            hist[g[k] - 1],
        ) == k by {
            if k == kl {
                assert(g[k] == hist.len() as int);
                assert(hist[g[k] - 1] == cl);
            } else {
                assert(g[k] == g2[k]);
                assert(h2[g2[k] - 1] == hist[g2[k] - 1]);
            }
        }
    }
}

/// Token `n` of a rectangular token grid is token `n % w` of row `n / w`.
proof fn lemma_flat_tokens_index(rows: Seq<Seq<u8>>, w: int)
    requires
        w >= 1,
        forall|i: int| 0 <= i < rows.len() ==> tokens_of(#[trigger] rows[i]).len() == w,
    ensures
        flat_tokens(rows).len() == rows.len() * w,
        forall|n: int|
            0 <= n < rows.len() * w ==> #[trigger] flat_tokens(rows)[n] == tokens_of(
                rows[n / w],
            )[n % w],
    decreases rows.len(),
{
    lemma_flat_tokens_len(rows, w);
    if rows.len() > 0 {
        let r2 = rows.drop_last();
        assert forall|i: int| 0 <= i < r2.len() implies tokens_of(#[trigger] r2[i]).len() == w by {
            assert(r2[i] == rows[i]);
        }
        lemma_flat_tokens_index(r2, w);
        let pre = flat_tokens(r2);
        assert(pre.len() == (rows.len() - 1) * w);
        assert forall|n: int|
            0 <= n < rows.len() * w implies #[trigger] flat_tokens(rows)[n] == tokens_of(
            rows[n / w],
        )[n % w] by {
            if n < pre.len() {
                assert(flat_tokens(rows)[n] == pre[n]);
                assert(n / w < rows.len() - 1 && 0 <= n % w < w) by (nonlinear_arith)
                    requires
                        w >= 1,
                        0 <= n < (rows.len() - 1) * w,
                ;
                assert(r2[n / w] == rows[n / w]);
            } else {
                let x = n - pre.len();
                assert(flat_tokens(rows)[n] == tokens_of(rows.last())[x]);
                assert(n / w == rows.len() - 1 && n % w == x) by (nonlinear_arith)
                    requires
                        w >= 1,
                        (rows.len() - 1) * w <= n < rows.len() * w,
                        x == n - (rows.len() - 1) * w,
                ;
                assert(rows.last() == rows[rows.len() - 1]);
            }
        }
    }
}

/// Which slots the scan has filled after passing the first `n` cells: the
/// moves whose cells lie before `n`.
pub open spec fn expected_slots(b: Board, n: int) -> Seq<SlotEntry> {
    Seq::new(
        (b.size_x * b.size_y) as nat,
        |i: int|
            if 0 <= i < b.depth() && cell_index(b.size_x, b.hist[i]) < n {
                Some((b.hist[i], player_of_index(i)))
            } else {
                None
            },
    )
}

/// The decoded history of a well-formed board: its own, with the players
/// the parity dictates.
pub open spec fn board_entries(b: Board) -> Seq<(Coords, Player)> {
    Seq::new(b.depth() as nat, |i: int| (b.hist[i], player_of_index(i)))
}

/// The grid tokens of a board.
pub open spec fn grid_tokens(b: Board) -> Seq<Seq<u8>> {
    Seq::new(
        b.cells() as nat,
        |n: int| dec_digits(number_grid(b.size_x, b.cells(), b.hist)[n]),
    )
}

/// Scanning the rendered grid tokens reconstructs the move slots exactly,
/// with no decoding offence on the way.
proof fn lemma_scan_grid(b: Board, n: int)
    requires
        b.wf_board(),
        0 <= n <= b.cells(),
    ensures
        scan_cells(grid_tokens(b), b.size_x, n, expected_slots(b, n)) == Ok::<
            Seq<SlotEntry>,
            GameError,
        >(expected_slots(b, b.cells())),
    decreases b.cells() - n,
{
    let sx = b.size_x;
    let sy = b.size_y;
    let toks = grid_tokens(b);
    let g = number_grid(sx, b.cells(), b.hist);
    assert forall|i: int|
        0 <= i < b.hist.len() implies ((#[trigger] b.hist[i]).0 as int) < sx && ((
    b.hist[i]).1 as int) < sy by {
        assert(b.placed_ok(i));
    }
    assert forall|i: int, j: int|
        0 <= i < b.hist.len() && 0 <= j < b.hist.len() && i != j implies (#[trigger] b.hist[i])
        != (#[trigger] b.hist[j]) by {
        assert(b.hist_at(i) != b.hist_at(j));
    }
    lemma_number_grid_char(sx, sy, b.hist);
    if n == b.cells() {
        assert(scan_cells(toks, sx, n, expected_slots(b, n)) == Ok::<Seq<SlotEntry>, GameError>(
            expected_slots(b, n),
        ));
    } else {
        let slots = expected_slots(b, n);
        assert(toks[n] == dec_digits(g[n]));
        assert(g[n] == 0 || (1 <= g[n] <= b.depth() && cell_index(sx, b.hist[g[n] - 1]) == n));
        assert(g[n] >= 0);
        lemma_dec_digits_range(g[n]);
        lemma_dec_digits_val(g[n]);
        let v = token_val(toks[n]);
        assert(v == g[n]);
        if v == 0 {
            assert(expected_slots(b, n + 1) =~= slots) by {
                assert forall|i: int|
                    0 <= i < slots.len() implies expected_slots(b, n + 1)[i] == slots[i] by {
                    if 0 <= i < b.depth() && cell_index(sx, b.hist[i]) == n {
                        assert(g[cell_index(sx, b.hist[i])] == i + 1);
                    }
                }
            }
            lemma_scan_grid(b, n + 1);
        } else {
            let i0 = v - 1;
            assert(cell_index(sx, b.hist[i0]) == n);
            assert(v <= b.cells());
            assert(slots[i0] is None);
            let c = b.hist[i0];
            let x = n % sx;
            let y = n / sx;
            assert(x == c.0 as int && y == c.1 as int) by (nonlinear_arith)
                requires
                    sx >= 1,
                    0 <= (c.0 as int) < sx,
                    0 <= (c.1 as int),
                    n == (c.1 as int) * sx + c.0 as int,
                    x == n % sx,
                    y == n / sx,
            ;
            let e = (
                ((x as u8), (y as u8)),
                if v % 2 == 0 {
                    Player::Blue
                } else {
                    Player::Red
                },
            );
            assert(e.0 == c);
            assert(e.1 == player_of_index(i0));
            let slots2 = slots.update(i0, Some(e));
            assert(slots2 =~= expected_slots(b, n + 1)) by {
                assert forall|i: int|
                    0 <= i < slots2.len() implies slots2[i] == expected_slots(b, n + 1)[i] by {
                    if i != i0 {
                        if 0 <= i < b.depth() && cell_index(sx, b.hist[i]) == n {
                            lemma_cell_index_inj(sx, sy, b.hist[i], b.hist[i0]);
                            assert(b.hist[i] != b.hist[i0]);
                        }
                    }
                }
            }
            lemma_scan_grid(b, n + 1);
            assert(scan_cells(toks, sx, n, slots) == scan_cells(toks, sx, n + 1, slots2));
        }
    }
}

/// After the whole scan the filled slots are exactly the history, in
/// order.
proof fn lemma_expected_full(b: Board)
    requires
        b.wf_board(),
    ensures
        is_some_prefix(expected_slots(b, b.cells())),
        some_prefix_len(expected_slots(b, b.cells())) == b.depth(),
        some_prefix_values(expected_slots(b, b.cells()), ((0u8, 0u8), Player::Red))
            == board_entries(b),
{
    let full = expected_slots(b, b.cells());
    assert forall|i: int| 0 <= i < b.depth() implies (#[trigger] full[i]) is Some by {
        assert(b.placed_ok(i));
        lemma_cell_index_range(b.size_x, b.size_y, b.hist[i]);
    }
    lemma_some_prefix_char(full, b.depth());
    assert(some_prefix_values(full, ((0u8, 0u8), Player::Red)) =~= board_entries(b));
}

/// Rendering a well-formed board gives a text the decoder accepts, and
/// what it infers from it is exactly the board's history.
pub proof fn lemma_parse_render(b: Board)
    requires
        b.wf(),
    ensures
        dims_ok(render_board(b)),
        spec_width(render_board(b)) == b.size_x,
        spec_height(render_board(b)) == b.size_y,
        parse_history(render_board(b)) == Ok::<Seq<(Coords, Player)>, GameError>(board_entries(b)),
{
    let sx = b.size_x;
    let sy = b.size_y;
    let g = number_grid(sx, b.cells(), b.hist);
    let rows = Seq::new(
        sy as nat,
        |y: int| join_bytes(Seq::new(sx as nat, |x: int| dec_digits(g[y * sx + x])), 32),
    );
    let rendered = render_board(b);
    assert(rendered == join_bytes(rows, 10));

    // Row structure: every row is the join of its digit tokens.
    assert forall|y: int| 0 <= y < sy implies tokens_of(#[trigger] rows[y]) == Seq::new(
        sx as nat,
        |x: int| dec_digits(g[y * sx + x]),
    ) && rows[y].len() >= 1 && !is_ws(rows[y][0]) && !is_ws(rows[y].last()) && (forall|j: int|
        0 <= j < rows[y].len() ==> (#[trigger] rows[y][j]) != 10) by {
        let toks = Seq::new(sx as nat, |x: int| dec_digits(g[y * sx + x]));
        assert forall|x: int| 0 <= x < toks.len() implies (#[trigger] toks[x]).len() >= 1 by {
            lemma_dec_digits_range(g[y * sx + x]);
        }
        assert forall|x: int, j: int|
            0 <= x < toks.len() && 0 <= j < toks[x].len() implies is_digit(#[trigger] toks[x][j])
            && !is_ws(toks[x][j]) && toks[x][j] != 10 by {
            lemma_dec_digits_range(g[y * sx + x]);
        }
        lemma_tokens_join(toks);
        lemma_join_bytes_ends(toks, 32);
        lemma_join_bytes_all(
            toks,
            32,
            |bb: u8| is_digit(bb) || bb == 32,
        );
        assert(is_digit(rows[y][0]));
        assert(is_digit(rows[y].last()) || rows[y].last() == 32);
        assert(rows[y].last() == toks.last().last());
        lemma_dec_digits_range(g[(y * sx) + (sx - 1)]);
        assert(toks.last() == toks[toks.len() - 1]);
        assert(is_digit(toks.last().last()));
    }

    // The whole text: non-empty, digit-edged, one LF between rows.
    assert forall|i: int| 0 <= i < rows.len() implies (#[trigger] rows[i]).len() >= 1 by {}
    lemma_join_bytes_ends(rows, 10);
    assert(!is_ws(rendered[0]));
    assert(rendered.last() == rows.last().last());
    assert(rows.last() == rows[sy - 1]);
    assert(!is_ws(rendered.last()));
    lemma_trim_noop(rendered);
    assert forall|i: int, j: int|
        0 <= i < rows.len() && 0 <= j < rows[i].len() implies (#[trigger] rows[i][j]) != 10 by {}
    lemma_split_join(rows, 10);
    assert(parsed_rows(rendered) == rows);
    assert(spec_width(rendered) == sx);
    assert(spec_height(rendered) == sy);
    assert(dims_ok(rendered));

    // The flat token list is the grid's numbers in reading order.
    lemma_flat_tokens_index(rows, sx);
    assert(flat_tokens(rows) =~= grid_tokens(b)) by {
        assert forall|n: int|
            0 <= n < flat_tokens(rows).len() implies #[trigger] flat_tokens(rows)[n]
            == grid_tokens(b)[n] by {
            assert(flat_tokens(rows)[n] == tokens_of(rows[n / sx])[n % sx]);
            let y = n / sx;
            let x = n % sx;
            assert(0 <= y < sy && 0 <= x < sx) by (nonlinear_arith)
                requires
                    sx >= 1,
                    0 <= n < sy * sx,
                    y == n / sx,
                    x == n % sx,
            ;
            assert(tokens_of(rows[y])[x] == dec_digits(g[y * sx + x]));
            assert(y * sx + x == n) by (nonlinear_arith)
                requires
                    sx >= 1,
                    n >= 0,
                    y == n / sx,
                    x == n % sx,
            ;
        }
        assert(flat_tokens(rows).len() == sy * sx);
        assert(sy * sx == b.cells()) by (nonlinear_arith)
            requires
                sy * sx == b.cells() || sx * sy == b.cells(),
        ;
    }

    // The scan fills exactly the history's slots.
    assert(expected_slots(b, 0) =~= empty_slots(sx, sy)) by {
        assert forall|i: int|
            0 <= i < expected_slots(b, 0).len() implies expected_slots(b, 0)[i] == empty_slots(
            sx,
            sy,
        )[i] by {
            if 0 <= i < b.depth() {
                assert(b.placed_ok(i));
                lemma_cell_index_range(sx, sy, b.hist[i]);
            }
        }
    }
    lemma_scan_grid(b, 0);
    lemma_expected_full(b);
}

/// Replaying a well-formed board's own decoded history rebuilds its cells
/// and history exactly.
pub proof fn lemma_replay_matches(b: Board)
    requires
        b.wf(),
    ensures
        replayed(b.size_x, b.size_y, board_entries(b)).size_x == b.size_x,
        replayed(b.size_x, b.size_y, board_entries(b)).size_y == b.size_y,
        replayed(b.size_x, b.size_y, board_entries(b)).field == b.field,
        replayed(b.size_x, b.size_y, board_entries(b)).hist == b.hist,
        replayed(b.size_x, b.size_y, board_entries(b)).winner is None,
{
    let entries = board_entries(b);
    assert(entries_ok(entries, b.size_x, b.size_y)) by {
        assert forall|i: int|
            0 <= i < entries.len() implies ((#[trigger] entries[i]).0.0 as int) < b.size_x && ((
        entries[i]).0.1 as int) < b.size_y by {
            assert(b.placed_ok(i));
        }
        assert forall|i: int, j: int|
            0 <= i < entries.len() && 0 <= j < entries.len() && i != j implies (
        #[trigger] entries[i]).0 != (#[trigger] entries[j]).0 by {
            assert(b.hist_at(i) != b.hist_at(j));
        }
    }
    lemma_replayed_ok(b.size_x, b.size_y, entries);
    let raw = replayed(b.size_x, b.size_y, entries);
    assert(raw.hist =~= b.hist) by {
        assert(raw.hist == entries.map_values(|e: (Coords, Player)| e.0));
        assert forall|i: int| 0 <= i < b.depth() implies raw.hist[i] == b.hist[i] by {
            assert(entries.map_values(|e: (Coords, Player)| e.0)[i] == entries[i].0);
        }
    }
    assert(raw.field =~= b.field) by {
        assert forall|k: int| 0 <= k < b.field.len() implies raw.field[k] == b.field[k] by {
            let x = k % b.size_x;
            let y = k / b.size_x;
            vstd::arithmetic::div_mod::lemma_fundamental_div_mod(k, b.size_x);
            assert(0 <= y < b.size_y && 0 <= x < b.size_x) by (nonlinear_arith)
                requires
                    b.size_x >= 1,
                    0 <= k < b.size_x * b.size_y,
                    y == k / b.size_x,
                    x == k % b.size_x,
            ;
            assert(b.idx(x, y) == k);
            assert(raw.idx(x, y) == k);
            if b.cell_at(x, y) is Some {
                assert(b.filled_by_hist(x, y));
                let i = choose|i: int|
                    0 <= i < b.depth() && #[trigger] b.hist_at(i) == (x as u8, y as u8);
                assert(b.placed_ok(i));
                assert(b.field[k] == Some(player_of_index(i)));
                assert(raw.placed_ok(i));
                assert(raw.hist_at(i) == (x as u8, y as u8));
                assert(raw.field[k] == Some(player_of_index(i)));
            } else if raw.cell_at(x, y) is Some {
                assert(raw.filled_by_hist(x, y));
                let i = choose|i: int|
                    0 <= i < raw.depth() && #[trigger] raw.hist_at(i) == (x as u8, y as u8);
                assert(b.placed_ok(i));
                assert(b.hist_at(i) == (x as u8, y as u8));
                assert(b.field[k] is Some);
            } else {
                assert(raw.field[k] is None && b.field[k] is None);
            }
        }
    }
}

/// What the decoder accepts it returns well-formed, with the winner it
/// itself computed from the last move.
pub proof fn lemma_parse_game_wf(s: Seq<u8>)
    requires
        parse_game(s) is Ok,
    ensures
        (parse_game(s)->Ok_0).wf(),
        (parse_game(s)->Ok_0).winner == (parse_game(s)->Ok_0).computed_winner(),
{
    let entries = parse_history(s)->Ok_0;
    lemma_parse_history_ok(s);
    let w = spec_width(s);
    let h = spec_height(s);
    lemma_replayed_ok(w, h, entries);
    let raw = replayed(w, h, entries);
    let m = parse_game(s)->Ok_0;
    assert(m == Board { winner: raw.computed_winner(), ..raw });
    crate::model::lemma_wf_board_ignores_cache(raw, m);
    match m.winner {
        Some(p) => {
            let lc = m.last_coords();
            crate::model::lemma_wins_at_ignores_cache(raw, m, p, lc.0 as int, lc.1 as int);
        },
        None => {},
    }
    assert(m.wf());
    assert(m.computed_winner() == raw.computed_winner()) by {
        if m.depth() > 0 {
            let lc = m.last_coords();
            crate::model::lemma_wins_at_ignores_cache(
                raw,
                m,
                m.last_mover(),
                lc.0 as int,
                lc.1 as int,
            );
        }
    }
}

/// An all-ASCII byte buffer survives the trip through characters and back
/// through UTF-8.
pub proof fn lemma_encode_ascii(bs: Seq<u8>)
    requires
        forall|i: int| 0 <= i < bs.len() ==> (#[trigger] bs[i]) < 128,
    ensures
        vstd::utf8::encode_utf8(chars_of(bs)) == bs,
{
    let cs = chars_of(bs);
    assert(vstd::utf8::is_ascii_chars(cs)) by {
        assert forall|i: int| 0 <= i < cs.len() implies '\0' <= #[trigger] cs[i] <= '\u{7f}' by {
            assert(cs[i] == bs[i] as char);
        }
    }
    vstd::utf8::is_ascii_chars_encode_utf8(cs);
    assert(vstd::utf8::encode_utf8(cs) =~= bs) by {
        assert forall|i: int|
            0 <= i < bs.len() implies #[trigger] vstd::utf8::encode_utf8(cs)[i] == bs[i] by {
            assert(cs[i] as u8 == vstd::utf8::encode_utf8(cs)[i]);
            assert(cs[i] == bs[i] as char);
        }
    }
}

/// Digit strings hold only digits.
pub proof fn lemma_dec_digits_range(n: int)
    ensures
        dec_digits(n).len() >= 1,
        forall|i: int| 0 <= i < dec_digits(n).len() ==> is_digit(#[trigger] dec_digits(n)[i]),
    decreases n,
{
    if n > 9 {
        lemma_dec_digits_range(n / 10);
    }
}

/// Joining parts whose bytes satisfy `codec_byte` with such a separator
/// yields only such bytes.
pub proof fn lemma_join_bytes_range(parts: Seq<Seq<u8>>, sep: u8)
    requires
        codec_byte(sep),
        forall|i: int, j: int|
            0 <= i < parts.len() && 0 <= j < parts[i].len() ==> codec_byte(#[trigger] parts[i][j]),
    ensures
        forall|k: int|
            0 <= k < join_bytes(parts, sep).len() ==> codec_byte(#[trigger] join_bytes(parts, sep)[k]),
    decreases parts.len(),
{
    if parts.len() <= 1 {
    } else {
        assert forall|i: int, j: int|
            0 <= i < parts.drop_last().len() && 0 <= j < parts.drop_last()[i].len() implies codec_byte(
            #[trigger] parts.drop_last()[i][j],
        ) by {
            assert(parts.drop_last()[i] == parts[i]);
        }
        lemma_join_bytes_range(parts.drop_last(), sep);
        assert forall|k: int|
            0 <= k < join_bytes(parts, sep).len() implies codec_byte(
            #[trigger] join_bytes(parts, sep)[k],
        ) by {
            let pre = join_bytes(parts.drop_last(), sep);
            if k < pre.len() {
            } else if k == pre.len() {
                assert(join_bytes(parts, sep)[k] == sep);
            } else {
                assert(join_bytes(parts, sep)[k] == parts.last()[k - pre.len() - 1]);
                assert(parts.last() == parts[parts.len() - 1]);
            }
        }
    }
}

/// Every byte of a rendered board is a codec byte.
pub proof fn lemma_render_board_bytes(b: Board)
    ensures
        forall|k: int|
            0 <= k < render_board(b).len() ==> codec_byte(#[trigger] render_board(b)[k]),
{
    let g = number_grid(b.size_x, b.cells(), b.hist);
    let rows = Seq::new(
        b.size_y as nat,
        |y: int|
            join_bytes(Seq::new(b.size_x as nat, |x: int| dec_digits(g[y * b.size_x + x])), 32),
    );
    assert forall|i: int, j: int|
        0 <= i < rows.len() && 0 <= j < rows[i].len() implies codec_byte(
        #[trigger] rows[i][j],
    ) by {
        let toks = Seq::new(b.size_x as nat, |x: int| dec_digits(g[i * b.size_x + x]));
        assert forall|u: int, v: int|
            0 <= u < toks.len() && 0 <= v < toks[u].len() implies codec_byte(
            #[trigger] toks[u][v],
        ) by {
            lemma_dec_digits_range(g[i * b.size_x + u]);
        }
        lemma_join_bytes_range(toks, 32);
    }
    lemma_join_bytes_range(rows, 10);
}

/// Every byte of a position-only hash is a codec byte.
pub proof fn lemma_hash_board_bytes(b: Board)
    ensures
        forall|k: int| 0 <= k < hash_board(b).len() ==> codec_byte(#[trigger] hash_board(b)[k]),
{
    let rows = Seq::new(
        b.size_y as nat,
        |y: int|
            join_bytes(
                Seq::new(b.size_x as nat, |x: int| seq![hash_cell_byte(b.cell_at(x, y))]),
                32,
            ),
    );
    assert forall|i: int, j: int|
        0 <= i < rows.len() && 0 <= j < rows[i].len() implies codec_byte(
        #[trigger] rows[i][j],
    ) by {
        let toks = Seq::new(
            b.size_x as nat,
            |x: int| seq![hash_cell_byte(b.cell_at(x, i))],
        );
        assert forall|u: int, v: int|
            0 <= u < toks.len() && 0 <= v < toks[u].len() implies codec_byte(
            #[trigger] toks[u][v],
        ) by {
            assert(toks[u][v] == hash_cell_byte(b.cell_at(u, i)));
        }
        lemma_join_bytes_range(toks, 32);
    }
    lemma_join_bytes_range(rows, 10);
}

/// Every byte of an empty-board text is a codec byte.
pub proof fn lemma_empty_state_bytes_range(w: int, h: int)
    ensures
        forall|k: int|
            0 <= k < empty_state_bytes(w, h).len() ==> codec_byte(#[trigger] empty_state_bytes(w, h)[k]),
    decreases h,
{
    if h > 0 {
        lemma_empty_state_bytes_range(w, h - 1);
        lemma_zeros_row_range(w);
        assert forall|k: int|
            0 <= k < empty_state_bytes(w, h).len() implies codec_byte(
            #[trigger] empty_state_bytes(w, h)[k],
        ) by {
            let pre = empty_state_bytes(w, h - 1);
            let z = zeros_row(w);
            if k < pre.len() {
                assert(empty_state_bytes(w, h)[k] == pre[k]);
            } else if k < pre.len() + z.len() {
                assert(empty_state_bytes(w, h)[k] == z[k - pre.len()]);
            } else {
                assert(empty_state_bytes(w, h)[k] == 10u8);
            }
        }
    }
}

proof fn lemma_zeros_row_range(w: int)
    ensures
        forall|k: int| 0 <= k < zeros_row(w).len() ==> codec_byte(#[trigger] zeros_row(w)[k]),
    decreases w,
{
    if w > 0 {
        lemma_zeros_row_range(w - 1);
        assert forall|k: int| 0 <= k < zeros_row(w).len() implies codec_byte(
            #[trigger] zeros_row(w)[k],
        ) by {
            let pre = zeros_row(w - 1);
            if k < pre.len() {
                assert(zeros_row(w)[k] == pre[k]);
            } else {
                assert(zeros_row(w)[k] == seq![48u8, 32u8][k - pre.len()]);
            }
        }
    }
}

} // verus!
