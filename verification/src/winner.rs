//! Winner detection from the last move outward.
//!
//! Only lines through the last move can newly become winning, so after each
//! push the engine measures, for each of the four line directions, how far
//! the last mover's run extends to either side of the landing cell.

use vstd::prelude::*;

use crate::game::{calc_field_index, Cell, Player, State};
use crate::model::{dir_dx, dir_dy, Board, WIN_LEN};

verus! {

/// Step in x of direction `d`, as executable code.
fn step_x(d: u8) -> (r: i32)
    requires
        d < 4,
    ensures
        r as int == dir_dx(d as int),
{
    if d == 1 {
        0
    } else {
        1
    }
}

/// Step in y of direction `d`, as executable code.
fn step_y(d: u8) -> (r: i32)
    requires
        d < 4,
    ensures
        r as int == dir_dy(d as int),
{
    if d == 0 {
        0
    } else if d == 3 {
        -1
    } else {
        1
    }
}

/// A maximal run to each side of a cell, together with a winning window
/// through the cell, forces the window inside the measured extents: the
/// extents must already span a full run.
proof fn lemma_window_within_extents(b: Board, p: Player, lx: int, ly: int, d: int, l: int, r: int)
    requires
        l >= 0,
        r >= 0,
        !b.ray_back(lx, ly, d, l + 1, p),
        !b.ray_ok(lx, ly, d, r + 1, p),
        b.wins_dir(p, lx, ly, d),
    ensures
        l + r + 1 >= WIN_LEN,
{
    let a = choose|a: int| 1 - WIN_LEN <= a <= 0 && #[trigger] b.window_ok(lx, ly, d, a, p);
    if a <= -(l + 1) {
        assert(b.ray_ok(lx, ly, d, -(l + 1), p));
        assert(false);
    }
    if r + 1 < a + WIN_LEN {
        assert(b.ray_ok(lx, ly, d, r + 1, p));
        assert(false);
    }
}

/// Runs of length `l` to the left and `r` to the right of an occupied cell
/// combine, when long enough, into a full winning window through that cell.
proof fn lemma_extents_give_window(b: Board, p: Player, lx: int, ly: int, d: int, l: int, r: int)
    requires
        l >= 0,
        r >= 0,
        l + r + 1 >= WIN_LEN,
        forall|k: int| 1 <= k <= l ==> #[trigger] b.ray_back(lx, ly, d, k, p),
        forall|k: int| 1 <= k <= r ==> #[trigger] b.ray_ok(lx, ly, d, k, p),
        b.ray_ok(lx, ly, d, 0, p),
    ensures
        b.wins_dir(p, lx, ly, d),
{
    let a = if l >= WIN_LEN - 1 {
        1 - WIN_LEN
    } else {
        -l
    };
    assert forall|j: int| a <= j < a + WIN_LEN implies #[trigger] b.ray_ok(lx, ly, d, j, p) by {
        if j < 0 {
            assert(b.ray_back(lx, ly, d, -j, p));
        } else if j > 0 {
            assert(b.ray_ok(lx, ly, d, j, p));
        }
    }
    assert(b.window_ok(lx, ly, d, a, p));
}

impl State {
    /// How far the run of `p` extends from `(lx, ly)` exclusive along
    /// direction `d`, towards the lower offsets when `neg` is set.
    fn ray_extent(&self, p: Player, lx: u8, ly: u8, d: u8, neg: bool) -> (n: u32)
        requires
            self@.wf_board(),
            d < 4,
            self@.in_bounds(lx as int, ly as int),
        ensures
            n <= 255,
            neg ==> forall|k: int|
                1 <= k <= n ==> #[trigger] self@.ray_back(lx as int, ly as int, d as int, k, p),
            !neg ==> forall|k: int|
                1 <= k <= n ==> #[trigger] self@.ray_ok(lx as int, ly as int, d as int, k, p),
            neg ==> !self@.ray_back(lx as int, ly as int, d as int, n as int + 1, p),
            !neg ==> !self@.ray_ok(lx as int, ly as int, d as int, n as int + 1, p),
    {
        let sdx: i32 = if neg {
            -step_x(d)
        } else {
            step_x(d)
        };
        let sdy: i32 = if neg {
            -step_y(d)
        } else {
            step_y(d)
        };
        let mut n: u32 = 0;
        let mut cx: i32 = lx as i32 + sdx;
        let mut cy: i32 = ly as i32 + sdy;
        loop
            invariant
                self@.wf_board(),
                d < 4,
                self@.in_bounds(lx as int, ly as int),
                sdx as int == (if neg {
                    -dir_dx(d as int)
                } else {
                    dir_dx(d as int)
                }),
                sdy as int == (if neg {
                    -dir_dy(d as int)
                } else {
                    dir_dy(d as int)
                }),
                n <= 255,
                cx as int == lx + (if neg {
                    -(n as int + 1)
                } else {
                    n as int + 1
                }) * dir_dx(d as int),
                cy as int == ly + (if neg {
                    -(n as int + 1)
                } else {
                    n as int + 1
                }) * dir_dy(d as int),
                neg ==> forall|k: int|
                    1 <= k <= n ==> #[trigger] self@.ray_back(lx as int, ly as int, d as int, k, p),
                !neg ==> forall|k: int|
                    1 <= k <= n ==> #[trigger] self@.ray_ok(lx as int, ly as int, d as int, k, p),
            decreases 256 - n,
        {
            let ghost o: int = if neg {
                -(n as int + 1)
            } else {
                n as int + 1
            };
            if cx < 0 || cy < 0 || cx >= self.size_x as i32 || cy >= self.size_y as i32 {
                proof {
                    assert(!self@.in_bounds(lx + o * dir_dx(d as int), ly + o * dir_dy(d as int)));
                }
                return n;
            }
            let i = calc_field_index(self.size_x, cx as u8, cy as u8);
            proof {
                crate::model::lemma_idx_in_range(self@, cx as int, cy as int);
            }
            let hit = match self.field[i] {
                Some(q) => q == p,
                None => false,
            };
            if !hit {
                proof {
                    assert(self@.cell_at(cx as int, cy as int) != Some(p));
                }
                return n;
            }
            proof {
                assert(self@.ray_ok(lx as int, ly as int, d as int, o, p));
                // The cursor stays on the board, so the offset stays small.
                if dir_dx(d as int) == 1 {
                    assert(cx as int == lx + o * 1);
                } else {
                    assert(dir_dy(d as int) == 1);
                    assert(cy as int == ly + o * 1);
                }
                assert(n + 1 <= 255);
                let o2: int = if neg {
                    -(n as int + 2)
                } else {
                    n as int + 2
                };
                let s: int = if neg {
                    -1
                } else {
                    1
                };
                assert(o2 * dir_dx(d as int) == o * dir_dx(d as int) + s * dir_dx(d as int))
                    by (nonlinear_arith)
                    requires
                        o2 == o + s,
                ;
                assert(o2 * dir_dy(d as int) == o * dir_dy(d as int) + s * dir_dy(d as int))
                    by (nonlinear_arith)
                    requires
                        o2 == o + s,
                ;
                assert(s * dir_dx(d as int) == sdx as int);
                assert(s * dir_dy(d as int) == sdy as int);
            }
            n = n + 1;
            cx = cx + sdx;
            cy = cy + sdy;
        }
    }

    /// The winner as determined by the last move: the run through the
    /// landing cell is measured in all four directions.
    pub fn compute_winner(&self) -> (r: Cell)
        requires
            self@.wf_board(),
        ensures
            r == self@.computed_winner(),
    {
        let len = self.coords_history.len();
        if len == 0 {
            return None;
        }
        let c = self.coords_history[len - 1];
        proof {
            assert(self@.placed_ok(self@.depth() - 1));
        }
        let p = if (len - 1) % 2 == 0 {
            Player::Red
        } else {
            Player::Blue
        };
        let mut d: u8 = 0;
        while d < 4
            invariant
                self@.wf_board(),
                self@.depth() > 0,
                c == self@.last_coords(),
                p == self@.last_mover(),
                self@.placed_ok(self@.depth() - 1),
                d <= 4,
                forall|dd: int| 0 <= dd < d ==> !self@.wins_dir(p, c.0 as int, c.1 as int, dd),
            decreases 4 - d,
        {
            let left = self.ray_extent(p, c.0, c.1, d, true);
            let right = self.ray_extent(p, c.0, c.1, d, false);
            if left + right + 1 >= WIN_LEN as u32 {
                proof {
                    assert(self@.ray_ok(c.0 as int, c.1 as int, d as int, 0, p));
                    lemma_extents_give_window(
                        self@,
                        p,
                        c.0 as int,
                        c.1 as int,
                        d as int,
                        left as int,
                        right as int,
                    );
                }
                return Some(p);
            }
            proof {
                if self@.wins_dir(p, c.0 as int, c.1 as int, d as int) {
                    lemma_window_within_extents(
                        self@,
                        p,
                        c.0 as int,
                        c.1 as int,
                        d as int,
                        left as int,
                        right as int,
                    );
                }
            }
            d = d + 1;
        }
        None
    }
}

} // verus!
