//! Negamax with alpha-beta pruning over a bounded transposition cache.
//!
//! The cache is keyed by the position-only board hash, so positions reached
//! through different move orders share their results.  Scores are
//! mate-distance scaled: faster wins score higher.  A depth-exhausted node
//! reports no score, and such children are skipped by their parent.

use vstd::prelude::*;

use crate::game::{Cell, Coords, GameOperations, Move, Player, Side, State};
use crate::model::{
    lemma_first_win_here, lemma_first_win_none, lemma_first_win_props, lemma_moves_elements,
    lemma_no_continue_no_moves, lemma_push_pop_identity, Board, WIN_LEN,
};

verus! {

/// The search gives up beyond this many plies.
pub const MINMAX_DEPTH_RESTRICTION: u8 = 15;

/// Advisory bound on transposition-cache entries.
pub const TRANSPOSITION_CACHE_CAPACITY: u64 = 10000;

/// A transposition-cache value: the move that led to the position (with
/// the side encoded as 0 for Left, 1 for Right) and its score, if known.
pub type CacheValue = (Option<(u8, u8)>, Option<i32>);

/// The transposition cache: position hash to cached result.
pub type TranspositionCache = moka::unsync::Cache<String, CacheValue>;

#[verifier::external_type_specification]
#[verifier::external_body]
#[verifier::reject_recursive_types(K)]
#[verifier::reject_recursive_types(V)]
#[verifier::reject_recursive_types(S)]
pub struct ExMokaUnsyncCache<K, V, S>(moka::unsync::Cache<K, V, S>);

/// What the transposition cache currently holds, key view to value.
pub uninterp spec fn cache_contents(c: moka::unsync::Cache<String, CacheValue>) -> Map<
    Seq<char>,
    CacheValue,
>;

/// The entry bound the cache was created with.
pub uninterp spec fn cache_capacity(c: TranspositionCache) -> int;

/// The contents of a cache with nothing in it.
pub open spec fn cache_empty() -> Map<Seq<char>, CacheValue> {
    Map::empty()
}

/// The cache holds finitely many entries, no more than its bound: the
/// memory of the transposition table stays bounded.
pub open spec fn cache_bounded(c: TranspositionCache) -> bool {
    cache_contents(c).dom().finite() && cache_contents(c).dom().len() <= cache_capacity(c)
}

/// Relies on moka's `unsync::Cache::new`: a fresh cache holds nothing and
/// remembers the given entry bound.
#[verifier::external_body]
fn cache_new(capacity: u64) -> (created: TranspositionCache)
    ensures
        cache_contents(created) == cache_empty(),
        cache_capacity(created) == capacity as int,
{
    moka::unsync::Cache::new(capacity)
}

/// Relies on moka's `unsync::Cache::get`: a hit returns the entry stored
/// under that key; housekeeping may evict entries but never invents one,
/// and the bound the cache was created with does not change.
#[verifier::external_body]
fn cache_get(c: &mut TranspositionCache, key: &String) -> (r: Option<CacheValue>)
    ensures
        cache_contents(*final(c)).submap_of(cache_contents(*old(c))),
        r matches Some(v) ==> cache_contents(*old(c)).contains_pair(key@, v),
        cache_capacity(*final(c)) == cache_capacity(*old(c)),
{
    c.get(key).copied()
}

/// Relies on moka's `unsync::Cache::insert`: afterwards the cache holds a
/// subset of the old entries plus the new one (the admission policy may
/// reject the entry or evict others; it never fabricates entries).  With
/// no weigher configured every entry weighs one, and on a full cache the
/// policy either evicts at least an entry's worth of victims or rejects
/// the candidate, so the entry bound is kept.
#[verifier::external_body]
fn cache_insert(c: &mut TranspositionCache, key: String, value: CacheValue)
    ensures
        cache_contents(*final(c)).submap_of(cache_contents(*old(c)).insert(key@, value)),
        cache_capacity(*final(c)) == cache_capacity(*old(c)),
        cache_bounded(*old(c)) ==> cache_bounded(*final(c)),
{
    c.insert(key, value);
}

/// Every score the search can produce fits under this bound.
pub open spec fn score_bound(b: Board) -> int {
    b.cells() / 2 + 1
}

/// Every cached score is inside the search's score window.
pub open spec fn cache_ok(m: Map<Seq<char>, CacheValue>, bound: int) -> bool {
    forall|k: Seq<char>|
        m.dom().contains(k) ==> ((#[trigger] m[k]).1 matches Some(sc) ==> -bound <= sc <= bound)
}

proof fn lemma_cache_ok_sub(m1: Map<Seq<char>, CacheValue>, m2: Map<Seq<char>, CacheValue>, bound: int)
    requires
        m2.submap_of(m1),
        cache_ok(m1, bound),
    ensures
        cache_ok(m2, bound),
{
    assert forall|k: Seq<char>|
        m2.dom().contains(k) implies ((#[trigger] m2[k]).1 matches Some(sc) ==> -bound <= sc
        <= bound) by {
        assert(m2.dom().contains(k));
        assert(m1.dom().contains(k));
        assert(m1[k] == m2[k]);
        assert((m1[k]).1 matches Some(sc) ==> -bound <= sc <= bound);
    }
}

proof fn lemma_cache_ok_insert(
    m1: Map<Seq<char>, CacheValue>,
    m2: Map<Seq<char>, CacheValue>,
    key: Seq<char>,
    value: CacheValue,
    bound: int,
)
    requires
        m2.submap_of(m1.insert(key, value)),
        cache_ok(m1, bound),
        value.1 matches Some(sc) ==> -bound <= sc <= bound,
    ensures
        cache_ok(m2, bound),
{
    assert forall|k: Seq<char>|
        m2.dom().contains(k) implies ((#[trigger] m2[k]).1 matches Some(sc) ==> -bound <= sc
        <= bound) by {
        assert(m1.insert(key, value).dom().contains(k));
        assert(m2[k] == m1.insert(key, value)[k]);
        if k != key {
            assert(m1.insert(key, value)[k] == m1[k]);
            assert(m1.dom().contains(k));
        }
    }
}

/// A cache that only lost entries is still finite and no larger.
proof fn lemma_cache_dom_shrinks(m1: Map<Seq<char>, CacheValue>, m2: Map<Seq<char>, CacheValue>)
    requires
        m2.submap_of(m1),
        m1.dom().finite(),
    ensures
        m2.dom().finite(),
        m2.dom().len() <= m1.dom().len(),
{
    assert(m2.dom().subset_of(m1.dom()));
    vstd::set_lib::lemma_len_subset(m2.dom(), m1.dom());
}

/// What one negamax step does with a child's answer: cut off at or above
/// beta, raise alpha on an improvement, and skip an unknown score.
pub open spec fn spec_apply_child_score(score: Option<i32>, alpha: int, beta: int) -> (bool, int) {
    match score {
        None => (false, alpha),
        Some(sc) => if sc >= beta {
            (true, alpha)
        } else if sc > alpha {
            (false, sc as int)
        } else {
            (false, alpha)
        },
    }
}

/// The verified consumer of whatever the cache or the recursion handed
/// back: returns whether to cut off, and the window's new lower bound.
fn apply_child_score(score: Option<i32>, alpha: i32, beta: i32) -> (r: (bool, i32))
    ensures
        (r.0, r.1 as int) == spec_apply_child_score(score, alpha as int, beta as int),
{
    match score {
        None => (false, alpha),
        Some(sc) => if sc >= beta {
            (true, alpha)
        } else if sc > alpha {
            (false, sc)
        } else {
            (false, alpha)
        },
    }
}

/// The side of a move, encoded for the cache.
fn side_code(s: Side) -> u8 {
    match s {
        Side::Left => 0,
        Side::Right => 1,
    }
}

/// One negamax node.  The state is handed back exactly as it came and the
/// cache stays inside the score window and its entry bound.  The three
/// terminal behaviors are pinned: a depth-exhausted node claims nothing, a
/// node without moves is a zero-score draw (a stalemated node has no moves,
/// so it is covered too), and when an immediately winning move exists the
/// first one in move order is returned with the mate-distance score.  Any
/// returned move is legal and any returned score inside the window.
#[verifier::rlimit(60)]
fn minimax_recursion(
    game: &mut State,
    player: Player,
    solutions_done: &mut TranspositionCache,
    alpha: i32,
    beta: i32,
    recommended_depth: Option<u8>,
) -> (r: (Option<Move>, Option<i32>))
    requires
        old(game)@.wf(),
        -score_bound(old(game)@) <= alpha <= score_bound(old(game)@),
        -score_bound(old(game)@) <= beta <= score_bound(old(game)@),
        cache_ok(cache_contents(*old(solutions_done)), score_bound(old(game)@)),
        cache_bounded(*old(solutions_done)),
    ensures
        final(game)@ == old(game)@,
        cache_ok(cache_contents(*final(solutions_done)), score_bound(old(game)@)),
        cache_bounded(*final(solutions_done)),
        cache_capacity(*final(solutions_done)) == cache_capacity(*old(solutions_done)),
        r.0 matches Some(m) ==> old(game)@.possible_moves().contains(m),
        r.1 matches Some(sc) ==> -score_bound(old(game)@) <= sc <= score_bound(old(game)@),
        recommended_depth == Some(0u8) ==> r == (None::<Move>, None::<i32>),
        !(recommended_depth == Some(0u8)) && old(game)@.possible_moves().len() == 0 ==> r == (
            None::<Move>,
            Some(0i32),
        ),
        !(recommended_depth == Some(0u8)) && old(game)@.first_winning_move() < old(
            game,
        )@.possible_moves().len() ==> r == (
            Some(old(game)@.possible_moves()[old(game)@.first_winning_move()]),
            Some(((old(game)@.cells() + 1 - old(game)@.depth()) / 2) as i32),
        ),
    decreases old(game)@.cells() - old(game)@.depth(),
{
    let ghost g0 = old(game)@;
    let ghost bound = score_bound(g0);
    match recommended_depth {
        Some(d) => {
            if d == 0 {
                return (None, None);
            }
        },
        None => {},
    }
    let possible_moves = game.possible_moves();
    if possible_moves.len() == 0 {
        // The previous player exhausted the position.
        return (None, Some(0));
    }
    if game.is_stalemate() {
        proof {
            // Unreachable: a stalemated game offers no moves.
            lemma_no_continue_no_moves(g0);
            assert(false);
        }
        return (None, Some(0));
    }
    proof {
        // A non-empty move list means the game can continue.
        assert(!g0.is_finished());
        if g0.is_stalemate() {
            lemma_no_continue_no_moves(g0);
        }
        assert(g0.can_continue());
        assert(g0.depth() < g0.cells());
        lemma_moves_elements(g0, g0.size_y);
        assert((g0.size_x as int) * (g0.size_y as int) <= 255 * 255) by (nonlinear_arith)
            requires
                0 <= g0.size_x <= 255,
                0 <= g0.size_y <= 255,
        ;
    }
    let whu = game.max_depth();
    let curu = game.current_depth();

    // Try a winning move first.
    let mut i: usize = 0;
    while i < possible_moves.len()
        invariant
            g0 == old(game)@,
            g0.wf(),
            game@ == g0,
            g0.can_continue(),
            g0.depth() < g0.cells(),
            whu == g0.cells(),
            whu <= 65025,
            curu == g0.depth(),
            bound == score_bound(g0),
            cache_ok(cache_contents(*solutions_done), bound),
            cache_bounded(*solutions_done),
            cache_capacity(*solutions_done) == cache_capacity(*old(solutions_done)),
            solutions_done == old(solutions_done),
            !(recommended_depth == Some(0u8)),
            possible_moves@ == g0.possible_moves(),
            possible_moves@.len() > 0,
            forall|k: int|
                0 <= k < possible_moves@.len() ==> ((#[trigger] possible_moves@[k]).0 as int)
                    < g0.size_y && !g0.row_full(possible_moves@[k].0 as int),
            i <= possible_moves@.len(),
            forall|j: int| 0 <= j < i ==> !g0.move_wins(#[trigger] possible_moves@[j]),
        decreases possible_moves@.len() - i,
    {
        let m = possible_moves[i];
        let ghost t = (g0.next_player(), m.0, m.1);
        proof {
            assert(g0.push_ok(t));
        }
        let pr = game.push_move(m);
        proof {
            assert(pr is Ok);
        }
        let is_win = game.try_winner().is_some();
        let qr = game.pop();
        proof {
            assert(g0.after_push(t).depth() > 0);
            lemma_push_pop_identity(g0, t);
            assert(is_win == g0.move_wins(m));
        }
        if is_win {
            let score: i32 = ((whu + 1 - curu) / 2) as i32;
            proof {
                assert(0 <= ((whu + 1 - curu) / 2) as int <= bound);
                assert(g0.possible_moves().contains(m)) by {
                    assert(g0.possible_moves()[i as int] == m);
                }
                // This is the first winning move in move order.
                lemma_first_win_here(g0, 0, i as int);
                assert(score as int == (g0.cells() + 1 - g0.depth()) / 2);
            }
            return (Some(m), Some(score));
        }
        i = i + 1;
    }
    proof {
        // No move wins at once.
        lemma_first_win_none(g0, 0);
    }

    // There is no need to keep beta above the best still-achievable score.
    let mut alpha2 = alpha;
    let mut beta2 = beta;
    let mx: i32 = ((whu - 1 - curu) / 2) as i32;
    proof {
        assert(0 <= ((whu - 1 - curu) / 2) as int <= bound);
    }
    if beta2 > mx {
        beta2 = mx;
        if alpha2 >= beta2 {
            return (None, Some(beta2));
        }
    }

    let mut best_move: Option<Move> = None;
    let mut i2: usize = 0;
    while i2 < possible_moves.len()
        invariant
            g0 == old(game)@,
            g0.wf(),
            game@ == g0,
            g0.can_continue(),
            g0.depth() < g0.cells(),
            bound == score_bound(g0),
            bound <= 32513,
            possible_moves@ == g0.possible_moves(),
            possible_moves@.len() > 0,
            g0.first_winning_move() == possible_moves@.len(),
            !(recommended_depth == Some(0u8)),
            forall|k: int|
                0 <= k < possible_moves@.len() ==> ((#[trigger] possible_moves@[k]).0 as int)
                    < g0.size_y && !g0.row_full(possible_moves@[k].0 as int),
            i2 <= possible_moves@.len(),
            -bound <= alpha2 <= bound,
            -bound <= beta2 <= bound,
            recommended_depth matches Some(d) ==> d >= 1,
            cache_ok(cache_contents(*solutions_done), bound),
            cache_bounded(*solutions_done),
            cache_capacity(*solutions_done) == cache_capacity(*old(solutions_done)),
            best_move matches Some(m) ==> g0.possible_moves().contains(m),
        decreases possible_moves@.len() - i2,
    {
        let m = possible_moves[i2];
        let ghost t = (g0.next_player(), m.0, m.1);
        proof {
            assert(g0.push_ok(t));
        }
        let pr = game.push_move(m);
        proof {
            assert(pr is Ok);
            assert(game@ == g0.after_push(t));
            assert(game@.wf());
            assert(game@.size_x == g0.size_x && game@.size_y == g0.size_y);
            assert(score_bound(game@) == bound);
            assert(game@.depth() == g0.depth() + 1);
        }
        let hash = game.hash_non_historical();
        let ghost pre_get = cache_contents(*solutions_done);
        let cached = cache_get(solutions_done, &hash);
        proof {
            lemma_cache_ok_sub(pre_get, cache_contents(*solutions_done), bound);
            lemma_cache_dom_shrinks(pre_get, cache_contents(*solutions_done));
            match cached {
                Some(v) => {
                    assert(pre_get.dom().contains(hash@));
                    assert(pre_get[hash@] == v);
                    assert(v.1 matches Some(sc) ==> -bound <= sc <= bound);
                },
                None => {},
            }
        }
        let score: Option<i32> = match cached {
            Some(v) => v.1,
            None => {
                let deeper = match recommended_depth {
                    Some(d) => Some(d - 1),
                    None => None,
                };
                let child = minimax_recursion(
                    game,
                    player,
                    solutions_done,
                    -beta2,
                    -alpha2,
                    deeper,
                );
                let sc: Option<i32> = match child.1 {
                    Some(s) => Some(-s),
                    None => None,
                };
                let code = side_code(m.1);
                let ghost pre_map = cache_contents(*solutions_done);
                let ghost hv = hash@;
                cache_insert(solutions_done, hash, (Some((m.0, code)), sc));
                proof {
                    lemma_cache_ok_insert(
                        pre_map,
                        cache_contents(*solutions_done),
                        hv,
                        (Some((m.0, code)), sc),
                        bound,
                    );
                }
                sc
            },
        };
        let (cut, new_alpha) = apply_child_score(score, alpha2, beta2);
        if new_alpha != alpha2 {
            alpha2 = new_alpha;
            best_move = Some(m);
            proof {
                assert(g0.possible_moves().contains(m)) by {
                    assert(g0.possible_moves()[i2 as int] == m);
                }
            }
        }
        if cut {
            let res = (Some(m), score);
            let qr = game.pop();
            proof {
                lemma_push_pop_identity(g0, t);
                assert(g0.possible_moves().contains(m)) by {
                    assert(g0.possible_moves()[i2 as int] == m);
                }
            }
            return res;
        }
        let qr = game.pop();
        proof {
            lemma_push_pop_identity(g0, t);
        }
        i2 = i2 + 1;
    }
    (best_move, Some(alpha2))
}

/// Start of the diagonal with index `l` on a square board of side `s`:
/// the smallest `j` with `(l - j, j)` on the board.
pub open spec fn diag_lo(s: int, l: int) -> int {
    if l - s + 1 > 0 {
        l - s + 1
    } else {
        0
    }
}

/// Last `j` with `(l - j, j)` on the board.
pub open spec fn diag_hi(s: int, l: int) -> int {
    if l < s - 1 {
        l
    } else {
        s - 1
    }
}

/// How many lines family `fam` has (0 rows, 1 columns, 2 falling
/// diagonals, 3 rising diagonals).
pub open spec fn fam_count(s: int, fam: int) -> int {
    if fam <= 1 {
        s
    } else {
        2 * s - 1
    }
}

/// Length of line `l` of family `fam`.
pub open spec fn line_len(s: int, fam: int, l: int) -> int {
    if fam <= 1 {
        s
    } else {
        diag_hi(s, l) - diag_lo(s, l) + 1
    }
}

/// The `i`-th cell of line `l` of family `fam`.
pub open spec fn line_coord(s: int, fam: int, l: int, i: int) -> Coords {
    if fam == 0 {
        (i as u8, l as u8)
    } else if fam == 1 {
        (l as u8, i as u8)
    } else if fam == 2 {
        ((l - (diag_lo(s, l) + i)) as u8, (diag_lo(s, l) + i) as u8)
    } else {
        ((l - (diag_lo(s, l) + i)) as u8, (s - 1 - (diag_lo(s, l) + i)) as u8)
    }
}

/// Line `l` of family `fam` as a sequence of coordinates.
pub open spec fn line_seq(s: int, fam: int, l: int) -> Seq<Coords> {
    Seq::new(line_len(s, fam, l) as nat, |i: int| line_coord(s, fam, l, i))
}

/// Every cell of every line lies on the (square) board.
proof fn lemma_line_in_bounds(s: int, fam: int, l: int, i: int)
    requires
        1 <= s <= 255,
        0 <= fam < 4,
        0 <= l < fam_count(s, fam),
        0 <= i < line_len(s, fam, l),
    ensures
        0 <= (line_coord(s, fam, l, i).0 as int) < s,
        0 <= (line_coord(s, fam, l, i).1 as int) < s,
{
}

/// The cells of the window of `WIN_LEN` line positions starting at `a`.
pub open spec fn win_cells(b: Board, line: Seq<Coords>, a: int) -> Seq<Cell> {
    Seq::new(WIN_LEN as nat, |j: int| b.cell_of(line[a + j]))
}

/// The scan state over a window: pieces seen, their owner (the first
/// occupied cell's player), and whether both colours were seen.
pub open spec fn win_state(cs: Seq<Cell>) -> (int, Option<Player>, bool)
    decreases cs.len(),
{
    if cs.len() == 0 {
        (0int, None, false)
    } else {
        let st = win_state(cs.drop_last());
        if st.2 {
            st
        } else {
            match cs.last() {
                None => st,
                Some(p) => if st.1 is Some && st.1 != Some(p) {
                    (st.0, st.1, true)
                } else {
                    (st.0 + 1, Some(p), false)
                },
            }
        }
    }
}

/// The score a scanned window contributes for `player`: nothing for mixed
/// or empty windows, and a steep reward for three-of-four.
pub open spec fn score_of(st: (int, Option<Player>, bool), player: Player) -> int {
    if st.2 {
        0
    } else {
        match st.1 {
            None => 0,
            Some(q) => {
                let sg: int = if q == player {
                    1
                } else {
                    -1
                };
                if st.0 == 3 {
                    30 * sg
                } else if st.0 == 2 {
                    4 * sg
                } else {
                    st.0 * sg
                }
            },
        }
    }
}

pub open spec fn window_score_spec(b: Board, player: Player, line: Seq<Coords>, a: int) -> int {
    score_of(win_state(win_cells(b, line, a)), player)
}

/// Number of windows of a line.
pub open spec fn line_windows(line: Seq<Coords>) -> int {
    if line.len() >= WIN_LEN {
        line.len() - WIN_LEN + 1
    } else {
        0
    }
}

pub open spec fn line_score_upto(b: Board, player: Player, line: Seq<Coords>, n: int) -> int
    decreases n,
{
    if n <= 0 {
        0
    } else {
        line_score_upto(b, player, line, n - 1) + window_score_spec(b, player, line, n - 1)
    }
}

pub open spec fn line_score(b: Board, player: Player, line: Seq<Coords>) -> int {
    line_score_upto(b, player, line, line_windows(line))
}

pub open spec fn fam_score_upto(b: Board, player: Player, s: int, fam: int, n: int) -> int
    decreases n,
{
    if n <= 0 {
        0
    } else {
        fam_score_upto(b, player, s, fam, n - 1) + line_score(b, player, line_seq(s, fam, n - 1))
    }
}

pub open spec fn board_score_upto(b: Board, player: Player, s: int, nfam: int) -> int
    decreases nfam,
{
    if nfam <= 0 {
        0
    } else {
        board_score_upto(b, player, s, nfam - 1) + fam_score_upto(
            b,
            player,
            s,
            nfam - 1,
            fam_count(s, nfam - 1),
        )
    }
}

/// The window-sum heuristic of the board for `player`, clamped to one more
/// than the cell count.
pub open spec fn expectimax_spec(b: Board, player: Player) -> int {
    let total = board_score_upto(b, player, b.size_x, 4);
    let cap = b.cells() + 1;
    if total < -cap {
        -cap
    } else if total > cap {
        cap
    } else {
        total
    }
}

proof fn lemma_win_state_count(cs: Seq<Cell>)
    ensures
        0 <= win_state(cs).0 <= cs.len(),
    decreases cs.len(),
{
    if cs.len() > 0 {
        lemma_win_state_count(cs.drop_last());
    }
}

proof fn lemma_window_bound(b: Board, player: Player, line: Seq<Coords>, a: int)
    ensures
        -30 <= window_score_spec(b, player, line, a) <= 30,
{
    lemma_win_state_count(win_cells(b, line, a));
}

proof fn lemma_line_score_bound(b: Board, player: Player, line: Seq<Coords>, n: int)
    requires
        n >= 0,
    ensures
        -30 * n <= line_score_upto(b, player, line, n) <= 30 * n,
    decreases n,
{
    if n > 0 {
        lemma_line_score_bound(b, player, line, n - 1);
        lemma_window_bound(b, player, line, n - 1);
    }
}

proof fn lemma_fam_score_bound(b: Board, player: Player, s: int, fam: int, n: int)
    requires
        0 <= fam < 4,
        0 <= n <= fam_count(s, fam),
        1 <= s <= 255,
    ensures
        -7650 * n <= fam_score_upto(b, player, s, fam, n) <= 7650 * n,
    decreases n,
{
    if n > 0 {
        lemma_fam_score_bound(b, player, s, fam, n - 1);
        let line = line_seq(s, fam, n - 1);
        let w = line_windows(line);
        assert(line.len() <= 255);
        assert(0 <= w <= 252);
        lemma_line_score_bound(b, player, line, w);
        assert(-30 * w >= -7650 && 30 * w <= 7650) by (nonlinear_arith)
            requires
                0 <= w <= 252,
        ;
    }
}

proof fn lemma_board_score_bound(b: Board, player: Player, s: int, nfam: int)
    requires
        0 <= nfam <= 4,
        1 <= s <= 255,
    ensures
        -3900150 * nfam <= board_score_upto(b, player, s, nfam) <= 3900150 * nfam,
    decreases nfam,
{
    if nfam > 0 {
        lemma_board_score_bound(b, player, s, nfam - 1);
        let n = fam_count(s, nfam - 1);
        lemma_fam_score_bound(b, player, s, nfam - 1, n);
        assert(-7650 * n >= -3900150 && 7650 * n <= 3900150) by (nonlinear_arith)
            requires
                0 <= n <= 509,
        ;
        assert(3900150 * (nfam - 1) + 3900150 == 3900150 * nfam) by (nonlinear_arith);
        assert(-3900150 * (nfam - 1) - 3900150 == -3900150 * nfam) by (nonlinear_arith);
    }
}

impl State {
    /// Line `l` of family `fam`, materialized.
    pub fn line_of(&self, fam: u8, l: usize) -> (line: Vec<Coords>)
        requires
            self@.wf_board(),
            self@.size_x == self@.size_y,
            fam < 4,
            l < fam_count(self@.size_x, fam as int),
        ensures
            line@ == line_seq(self@.size_x, fam as int, l as int),
            forall|i: int| 0 <= i < line@.len() ==> self@.coords_ok(#[trigger] line@[i]),
    {
        let ghost sg = self@.size_x;
        let s = self.size_x as usize;
        let (lo, len): (usize, usize) = if fam <= 1 {
            (0, s)
        } else {
            let lo = if l + 1 > s {
                l + 1 - s
            } else {
                0
            };
            let hi = if l < s - 1 {
                l
            } else {
                s - 1
            };
            (lo, hi - lo + 1)
        };
        proof {
            if fam >= 2 {
                assert(lo as int == diag_lo(sg, l as int));
                assert(len as int == line_len(sg, fam as int, l as int));
            }
        }
        let mut line: Vec<Coords> = Vec::new();
        let mut i: usize = 0;
        while i < len
            invariant
                sg == self@.size_x,
                self@.size_x == self@.size_y,
                1 <= sg <= 255,
                fam < 4,
                l < fam_count(sg, fam as int),
                s == sg,
                fam >= 2 ==> lo as int == diag_lo(sg, l as int),
                fam <= 1 ==> lo == 0,
                len as int == line_len(sg, fam as int, l as int),
                i <= len,
                line@ =~= line_seq(sg, fam as int, l as int).take(i as int),
            decreases len - i,
        {
            proof {
                lemma_line_in_bounds(sg, fam as int, l as int, i as int);
            }
            let c: (u8, u8) = if fam == 0 {
                (i as u8, l as u8)
            } else if fam == 1 {
                (l as u8, i as u8)
            } else if fam == 2 {
                ((l - (lo + i)) as u8, (lo + i) as u8)
            } else {
                ((l - (lo + i)) as u8, (s - 1 - (lo + i)) as u8)
            };
            proof {
                assert(c == line_coord(sg, fam as int, l as int, i as int));
            }
            line.push(c);
            proof {
                assert(line@ =~= line_seq(sg, fam as int, l as int).take(i + 1));
            }
            i = i + 1;
        }
        proof {
            assert(line_seq(sg, fam as int, l as int).take(len as int) =~= line_seq(
                sg,
                fam as int,
                l as int,
            ));
            assert forall|k: int| 0 <= k < line@.len() implies self@.coords_ok(
                #[trigger] line@[k],
            ) by {
                lemma_line_in_bounds(sg, fam as int, l as int, k);
            }
        }
        line
    }

    /// The board's lines: rows, columns, and the two diagonal families,
    /// each line its cells' coordinates in order.  The diagonal index
    /// scheme assumes a square board.
    pub fn lines(&self) -> (r: Vec<Vec<Vec<Coords>>>)
        requires
            self@.wf_board(),
            self@.size_x == self@.size_y,
        ensures
            r@.len() == 4,
            forall|f: int|
                0 <= f < 4 ==> (#[trigger] r@[f])@.len() == fam_count(self@.size_x, f),
            forall|f: int, l: int|
                0 <= f < 4 && 0 <= l < fam_count(self@.size_x, f) ==> (#[trigger] r@[f]@[l])@
                    == line_seq(self@.size_x, f, l),
    {
        let s = self.size_x as usize;
        let mut r: Vec<Vec<Vec<Coords>>> = Vec::new();
        let mut f: u8 = 0;
        while f < 4
            invariant
                self@.wf_board(),
                self@.size_x == self@.size_y,
                s == self@.size_x,
                f <= 4,
                r@.len() == f,
                forall|ff: int|
                    0 <= ff < f ==> (#[trigger] r@[ff])@.len() == fam_count(self@.size_x, ff),
                forall|ff: int, l: int|
                    0 <= ff < f && 0 <= l < fam_count(self@.size_x, ff) ==> (
                    #[trigger] r@[ff]@[l])@ == line_seq(self@.size_x, ff, l),
            decreases 4 - f,
        {
            let count = if f <= 1 {
                s
            } else {
                2 * s - 1
            };
            let mut fam: Vec<Vec<Coords>> = Vec::new();
            let mut l: usize = 0;
            while l < count
                invariant
                    self@.wf_board(),
                    self@.size_x == self@.size_y,
                    s == self@.size_x,
                    f < 4,
                    count as int == fam_count(self@.size_x, f as int),
                    l <= count,
                    fam@.len() == l,
                    forall|ll: int|
                        0 <= ll < l ==> (#[trigger] fam@[ll])@ == line_seq(
                            self@.size_x,
                            f as int,
                            ll,
                        ),
                decreases count - l,
            {
                fam.push(self.line_of(f, l));
                l = l + 1;
            }
            r.push(fam);
            f = f + 1;
        }
        r
    }

    /// The score one window contributes for `player`.
    fn window_score(&self, player: Player, line: &Vec<Coords>, a: usize) -> (sc: i32)
        requires
            self@.wf_board(),
            a + WIN_LEN <= line@.len(),
            forall|i: int| 0 <= i < line@.len() ==> self@.coords_ok(#[trigger] line@[i]),
        ensures
            sc as int == window_score_spec(self@, player, line@, a as int),
            -30 <= sc <= 30,
    {
        let llen = line.len();
        let mut occurrences: i32 = 0;
        let mut last_player: Option<Player> = None;
        let mut non_homogenous = false;
        let mut j: usize = 0;
        proof {
            assert(a + (WIN_LEN as usize) <= llen);
        }
        proof {
            assert(win_cells(self@, line@, a as int).take(0) =~= Seq::<Cell>::empty());
        }
        while j < WIN_LEN as usize
            invariant
                self@.wf_board(),
                llen == line@.len(),
                a + WIN_LEN <= llen,
                forall|i: int| 0 <= i < line@.len() ==> self@.coords_ok(#[trigger] line@[i]),
                j <= WIN_LEN,
                0 <= occurrences <= j,
                (occurrences as int, last_player, non_homogenous) == win_state(
                    win_cells(self@, line@, a as int).take(j as int),
                ),
            decreases WIN_LEN - j,
        {
            let c = line[a + j];
            let k = crate::game::calc_field_index(self.size_x, c.0, c.1);
            proof {
                crate::model::lemma_idx_in_range(self@, c.0 as int, c.1 as int);
                assert(win_cells(self@, line@, a as int).take(j + 1).drop_last() =~= win_cells(
                    self@,
                    line@,
                    a as int,
                ).take(j as int));
                assert(win_cells(self@, line@, a as int).take(j + 1).last() == self@.cell_of(c));
            }
            let cell = self.field[k];
            if !non_homogenous {
                match cell {
                    None => {},
                    Some(p) => {
                        let conflict = match last_player {
                            Some(q) => q != p,
                            None => false,
                        };
                        if conflict {
                            non_homogenous = true;
                        } else {
                            occurrences = occurrences + 1;
                            last_player = Some(p);
                        }
                    },
                }
            }
            j = j + 1;
        }
        proof {
            assert(win_cells(self@, line@, a as int).take(WIN_LEN as int) =~= win_cells(
                self@,
                line@,
                a as int,
            ));
        }
        if non_homogenous {
            0
        } else {
            match last_player {
                None => 0,
                Some(q) => {
                    let sg: i32 = if q == player {
                        1
                    } else {
                        -1
                    };
                    if occurrences == 3 {
                        30 * sg
                    } else if occurrences == 2 {
                        4 * sg
                    } else {
                        proof {
                            assert(-4 <= occurrences * sg <= 4) by (nonlinear_arith)
                                requires
                                    0 <= occurrences <= 4,
                                    -1 <= sg <= 1,
                            ;
                        }
                        occurrences * sg
                    }
                },
            }
        }
    }

}

/// The window-sum heuristic: every `WIN_LEN` window of every row, column
/// and diagonal is scored for `player` and the total clamped to one more
/// than the cell count.  (A designed move-ordering primitive; the search
/// does not call it.)  The diagonal enumeration assumes a square board.
pub fn expectimax(game: &State, player: Player) -> (r: i32)
    requires
        game@.wf(),
        game@.size_x == game@.size_y,
    ensures
        r as int == expectimax_spec(game@, player),
{
    let ghost b = game@;
    let ghost sg = game@.size_x;
    let s = game.size_x as usize;
    let mut total: i64 = 0;
    let mut fam: u8 = 0;
    while fam < 4
        invariant
            b == game@,
            b.wf(),
            b.size_x == b.size_y,
            sg == b.size_x,
            1 <= sg <= 255,
            s == sg,
            fam <= 4,
            total as int == board_score_upto(b, player, sg, fam as int),
            -16000000 <= total <= 16000000,
        decreases 4 - fam,
    {
        let count = if fam <= 1 {
            s
        } else {
            2 * s - 1
        };
        let mut l: usize = 0;
        let ghost fam_start = total as int;
        proof {
            lemma_board_score_bound(b, player, sg, fam as int);
            assert(-3900150 * (fam as int) >= -16000000 && 3900150 * (fam as int) <= 16000000)
                by (nonlinear_arith)
                requires
                    0 <= fam as int <= 4,
            ;
        }
        while l < count
            invariant
                b == game@,
                b.wf(),
                b.size_x == b.size_y,
                sg == b.size_x,
                1 <= sg <= 255,
                s == sg,
                fam < 4,
                count as int == fam_count(sg, fam as int),
                l <= count,
                fam_start == board_score_upto(b, player, sg, fam as int),
                -16000000 <= fam_start <= 16000000,
                total as int == fam_start + fam_score_upto(b, player, sg, fam as int, l as int),
                -20000000 <= total <= 20000000,
            decreases count - l,
        {
            let line = game.line_of(fam, l);
            let ghost lsq = line_seq(sg, fam as int, l as int);
            let mut lscore: i32 = 0;
            let nw: usize = if line.len() >= WIN_LEN as usize {
                line.len() - WIN_LEN as usize + 1
            } else {
                0
            };
            proof {
                assert(nw as int == line_windows(lsq));
                assert(0 <= nw <= 252);
            }
            let mut a: usize = 0;
            while a < nw
                invariant
                    b == game@,
                    b.wf(),
                    sg == b.size_x,
                    line@ == lsq,
                    forall|i: int|
                        0 <= i < line@.len() ==> game@.coords_ok(#[trigger] line@[i]),
                    nw as int == line_windows(lsq),
                    nw > 0 ==> nw + WIN_LEN <= line@.len() + 1,
                    a <= nw,
                    lscore as int == line_score_upto(b, player, lsq, a as int),
                    -30 * (a as int) <= lscore <= 30 * (a as int),
                    nw <= 252,
                decreases nw - a,
            {
                let w = game.window_score(player, &line, a);
                proof {
                    assert(-30 * (a as int + 1) <= lscore + w <= 30 * (a as int + 1))
                        by (nonlinear_arith)
                        requires
                            -30 * (a as int) <= lscore <= 30 * (a as int),
                            -30 <= w <= 30,
                    ;
                    assert(30 * (a as int + 1) <= 7590) by (nonlinear_arith)
                        requires
                            a as int + 1 <= 253,
                    ;
                }
                lscore = lscore + w;
                a = a + 1;
            }
            proof {
                assert(lscore as int == line_score(b, player, lsq));
                lemma_line_score_bound(b, player, lsq, nw as int);
                assert(-7650 <= lscore <= 7650) by (nonlinear_arith)
                    requires
                        -30 * (nw as int) <= lscore <= 30 * (nw as int),
                        0 <= nw <= 252,
                ;
                lemma_fam_score_bound(b, player, sg, fam as int, l as int + 1);
                assert(-7650 * (l as int + 1) >= -3900150 && 7650 * (l as int + 1) <= 3900150)
                    by (nonlinear_arith)
                    requires
                        0 <= l as int + 1 <= 509,
                ;
            }
            total = total + lscore as i64;
            l = l + 1;
        }
        proof {
            lemma_board_score_bound(b, player, sg, fam as int + 1);
            assert(-3900150 * (fam as int + 1) >= -16000000 && 3900150 * (fam as int + 1)
                <= 16000000) by (nonlinear_arith)
                requires
                    0 <= fam as int + 1 <= 4,
            ;
        }
        fam = fam + 1;
    }
    let cells = game.max_depth();
    proof {
        assert((b.size_x as int) * (b.size_y as int) <= 255 * 255) by (nonlinear_arith)
            requires
                0 <= b.size_x <= 255,
                0 <= b.size_y <= 255,
        ;
    }
    let cap: i64 = cells as i64 + 1;
    let clamped: i64 = if total < -cap {
        -cap
    } else if total > cap {
        cap
    } else {
        total
    };
    clamped as i32
}

/// The searching bot's move for this position: the negamax pick, a legal
/// move whenever one is returned; `None` when the game is over (and, at
/// the depth horizon, possibly in lost corner positions).  When some move
/// wins at once, a winning move is returned.
pub fn minimax(game: &State) -> (r: Option<Move>)
    requires
        game@.wf(),
    ensures
        r matches Some(m) ==> game@.possible_moves().contains(m),
        !game@.can_continue() ==> r is None,
        (exists|m: Move|
            #[trigger] game@.possible_moves().contains(m) && game@.move_wins(m)) ==> (r matches Some(
            w,
        ) && game@.move_wins(w)),
{
    let player = match game.next_player() {
        Ok(p) => p,
        Err(_) => {
            proof {
                if exists|m: Move|
                    #[trigger] game@.possible_moves().contains(m) && game@.move_wins(m) {
                    let m = choose|m: Move|
                        #[trigger] game@.possible_moves().contains(m) && game@.move_wins(m);
                    assert(game@.possible_moves().len() > 0);
                    lemma_no_continue_no_moves(game@);
                }
            }
            return None;
        },
    };
    let mut hm = cache_new(TRANSPOSITION_CACHE_CAPACITY);
    let mut g = game.duplicate();
    let whu = game.max_depth();
    proof {
        assert((game@.size_x as int) * (game@.size_y as int) <= 255 * 255) by (nonlinear_arith)
            requires
                0 <= game@.size_x <= 255,
                0 <= game@.size_y <= 255,
        ;
        assert(cache_bounded(hm));
    }
    let half: i32 = (whu / 2) as i32;
    let r = minimax_recursion(
        &mut g,
        player,
        &mut hm,
        -half,
        half,
        Some(MINMAX_DEPTH_RESTRICTION),
    );
    proof {
        lemma_first_win_props(game@, 0);
        if exists|m: Move| #[trigger] game@.possible_moves().contains(m) && game@.move_wins(m) {
            let m = choose|m: Move|
                #[trigger] game@.possible_moves().contains(m) && game@.move_wins(m);
            let i = choose|i: int|
                0 <= i < game@.possible_moves().len() && game@.possible_moves()[i] == m;
            // Some move wins, so the first winning position is in range and
            // the search's immediate-win promise names it.
            assert(game@.first_winning_move() < game@.possible_moves().len()) by {
                if game@.first_winning_move() == game@.possible_moves().len() {
                    assert(!game@.move_wins(game@.possible_moves()[i]));
                }
            }
        }
    }
    r.0
}

} // verus!
