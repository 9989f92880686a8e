//! The game-state model: cells, commands, the engine, and its contracts.

use vstd::prelude::*;

use crate::grid::{
    adjacent, adjacent_mines, all_safe_open, count_closed, count_mines, idx, in_b, in_closure,
    lemma_adjacent_mines_same, lemma_closure_border, lemma_closure_zero_reach,
    lemma_count_closed_update,
    lemma_count_mines_same, lemma_count_mines_update, lemma_idx_bounds, lemma_idx_injective,
    lemma_on_stack_prefix, lemma_reach_self, lemma_zero_no_mine_neighbor, numbers_ok,
    numbers_ok_upto, on_stack, open_at, region_inv, region_inv_mod, zero_cell,
};
use crate::rng::{draw_index, seeded_rng};
use vstd::std_specs::cmp::PartialOrdSpec;

verus! {

/// Grid width of the default board.
pub const BOARD_W: usize = 9;

/// Grid height of the default board.
pub const BOARD_H: usize = 9;

/// Mine count of the default board.
pub const BOMB_COUNT: usize = 10;

/// One command from the input layer, already translated to grid coordinates.
#[derive(Debug, Clone, Copy, PartialEq, Eq, Structural)]
pub enum Command {
    Noop,
    Open(usize, usize),
    Flag(usize, usize),
}

/// A gameplay-triggered audio cue, drained by the audio collaborator.
#[derive(Debug, Clone, Copy, PartialEq, Eq, Structural)]
pub enum Sound {
    Crash,
}

/// One grid position.
#[derive(Debug, Clone, Copy, PartialEq, Eq, Structural)]
pub struct Cell {
    /// Set once at initialization, never changed afterwards.
    pub is_mine: bool,
    /// Monotonic: once true it never reverts.
    pub is_open: bool,
    /// Toggles while the cell is closed; forced false once the cell opens.
    pub is_flagged: bool,
    /// Number of mines among the up-to-8 in-bounds neighbors; derived at
    /// initialization, immutable afterwards.
    pub adjacent_mine_count: i32,
}

/// A closed, unmined, unflagged cell with no adjacent mines recorded.
pub open spec fn blank_cell() -> Cell {
    Cell { is_mine: false, is_open: false, is_flagged: false, adjacent_mine_count: 0 }
}

/// `c` after being revealed: open, no longer flagged, otherwise unchanged.
pub open spec fn opened_cell(c: Cell) -> Cell {
    Cell {
        is_mine: c.is_mine,
        is_open: true,
        is_flagged: false,
        adjacent_mine_count: c.adjacent_mine_count,
    }
}

/// `c` with its flag toggled, otherwise unchanged.
pub open spec fn toggled_cell(c: Cell) -> Cell {
    Cell {
        is_mine: c.is_mine,
        is_open: c.is_open,
        is_flagged: !c.is_flagged,
        adjacent_mine_count: c.adjacent_mine_count,
    }
}

impl Default for Cell {
    fn default() -> (c: Cell)
        ensures
            c == blank_cell(),
    {
        Cell { is_mine: false, is_open: false, is_flagged: false, adjacent_mine_count: 0 }
    }
}

/// A valid board configuration: positive dimensions whose cell count fits
/// the machine, and at least one mine but not a full grid of them.
pub open spec fn valid_config(w: int, h: int, mine_count: int) -> bool {
    &&& 1 <= w
    &&& 1 <= h
    &&& w * h <= usize::MAX
    &&& 1 <= mine_count < w * h
}

/// How the cell grid may change under a reveal: dimensions, mines and
/// counts are untouched, openness only grows, and an opened cell drops
/// its flag.
pub open spec fn cells_frame(pre: Seq<Cell>, post: Seq<Cell>) -> bool {
    &&& post.len() == pre.len()
    &&& forall|j: int|
        0 <= j < pre.len() ==> {
            &&& (#[trigger] post[j]).is_mine == pre[j].is_mine
            &&& post[j].adjacent_mine_count == pre[j].adjacent_mine_count
            &&& (pre[j].is_open ==> post[j].is_open)
            &&& post[j].is_flagged == (pre[j].is_flagged && !post[j].is_open)
        }
}

/// The game engine: a grid of cells plus session state, driven one
/// command at a time.
pub struct Game {
    /// Grid width, fixed at construction.
    pub w: usize,
    /// Grid height, fixed at construction.
    pub h: usize,
    /// Number of mines on the board, fixed at construction.
    pub mine_count: usize,
    /// Row-major grid of cells: `(x, y)` lives at index `y * w + x`.
    pub board: Vec<Cell>,
    /// True once a mine has been opened; terminal.
    pub is_over: bool,
    /// True once every mine-free cell is open; terminal.
    pub is_clear: bool,
    /// Pending sound events, appended by the engine and drained by the
    /// audio collaborator once per frame.
    pub requested_sounds: Vec<Sound>,
    /// Seeded pseudo-random generator, used only during initialization.
    pub rng: rand::rngs::StdRng,
}

impl Game {
    /// Dimensions are positive, the cell count fits the machine, and the
    /// grid vector has exactly one cell per position.
    pub open spec fn dims_ok(self) -> bool {
        &&& 1 <= self.w
        &&& 1 <= self.h
        &&& self.w * self.h <= usize::MAX
        &&& self.board@.len() == self.w * self.h
    }

    pub open spec fn in_bounds(self, x: int, y: int) -> bool {
        in_b(self.w as int, self.h as int, x, y)
    }

    /// The cell at `(x, y)`.
    pub open spec fn cell_at(self, x: int, y: int) -> Cell {
        self.board@[idx(self.w as int, x, y)]
    }

    /// Well-formedness: established by the constructors and preserved by
    /// every command.
    pub open spec fn inv(self) -> bool {
        &&& self.dims_ok()
        &&& valid_config(self.w as int, self.h as int, self.mine_count as int)
        &&& count_mines(self.board@) == self.mine_count
        &&& numbers_ok(self.board@, self.w as int, self.h as int)
        &&& no_flagged_open(self.board@)
        &&& region_inv(self.board@, self.w as int, self.h as int)
    }

    /// The board of a game that has not been played yet.
    pub open spec fn all_closed(self) -> bool {
        forall|j: int|
            0 <= j < self.board@.len() ==> !(#[trigger] self.board@[j]).is_open
                && !self.board@[j].is_flagged
    }

    /// Recounts the mines among the up-to-8 in-bounds neighbors of
    /// `(center_x, center_y)`; the center itself is never counted.
    pub fn count_bombs(&self, center_x: usize, center_y: usize) -> (r: i32)
        requires
            self.dims_ok(),
            center_x < self.w,
            center_y < self.h,
        ensures
            r as int == adjacent_mines(
                self.board@,
                self.w as int,
                self.h as int,
                center_x as int,
                center_y as int,
            ),
            0 <= r <= 8,
    {
        let w = self.w;
        let h = self.h;
        let ghost wi = w as int;
        let ghost hi = h as int;
        let ghost cxi = center_x as int;
        let ghost cyi = center_y as int;
        proof {
            lemma_idx_bounds(wi, hi, cxi, cyi);
            if cxi >= 1 {
                lemma_idx_bounds(wi, hi, cxi - 1, cyi);
            }
            if cxi + 1 < wi {
                lemma_idx_bounds(wi, hi, cxi + 1, cyi);
            }
            if cyi >= 1 {
                lemma_idx_bounds(wi, hi, cxi, cyi - 1);
                if cxi >= 1 {
                    lemma_idx_bounds(wi, hi, cxi - 1, cyi - 1);
                }
                if cxi + 1 < wi {
                    lemma_idx_bounds(wi, hi, cxi + 1, cyi - 1);
                }
            }
            if cyi + 1 < hi {
                lemma_idx_bounds(wi, hi, cxi, cyi + 1);
                if cxi >= 1 {
                    lemma_idx_bounds(wi, hi, cxi - 1, cyi + 1);
                }
                if cxi + 1 < wi {
                    lemma_idx_bounds(wi, hi, cxi + 1, cyi + 1);
                }
            }
        }
        let mut result: i32 = 0;
        if center_x >= 1 && center_y >= 1 && self.board[(center_y - 1) * w + (center_x - 1)].is_mine
        {
            result += 1;
        }
        if center_y >= 1 && self.board[(center_y - 1) * w + center_x].is_mine {
            result += 1;
        }
        if center_x + 1 < w && center_y >= 1 && self.board[(center_y - 1) * w + (center_x
            + 1)].is_mine {
            result += 1;
        }
        if center_x >= 1 && self.board[center_y * w + (center_x - 1)].is_mine {
            result += 1;
        }
        if center_x + 1 < w && self.board[center_y * w + (center_x + 1)].is_mine {
            result += 1;
        }
        if center_x >= 1 && center_y + 1 < h && self.board[(center_y + 1) * w + (center_x
            - 1)].is_mine {
            result += 1;
        }
        if center_y + 1 < h && self.board[(center_y + 1) * w + center_x].is_mine {
            result += 1;
        }
        if center_x + 1 < w && center_y + 1 < h && self.board[(center_y + 1) * w + (center_x
            + 1)].is_mine {
            result += 1;
        }
        result
    }

    /// Stores the true adjacency count in every cell, leaving every other
    /// field of the board and of the session untouched.
    fn fill_numbers(&mut self)
        requires
            old(self).dims_ok(),
        ensures
            final(self).dims_ok(),
            final(self).w == old(self).w,
            final(self).h == old(self).h,
            final(self).mine_count == old(self).mine_count,
            final(self).is_over == old(self).is_over,
            final(self).is_clear == old(self).is_clear,
            final(self).requested_sounds@ == old(self).requested_sounds@,
            final(self).rng == old(self).rng,
            final(self).board@.len() == old(self).board@.len(),
            forall|j: int|
                0 <= j < old(self).board@.len() ==> {
                    &&& (#[trigger] final(self).board@[j]).is_mine == old(self).board@[j].is_mine
                    &&& final(self).board@[j].is_open == old(self).board@[j].is_open
                    &&& final(self).board@[j].is_flagged == old(self).board@[j].is_flagged
                },
            numbers_ok(final(self).board@, old(self).w as int, old(self).h as int),
    {
        let w = self.w;
        let h = self.h;
        let ghost wi = w as int;
        let ghost hi = h as int;
        let ghost orig = *old(self);
        let mut y: usize = 0;
        while y < h
            invariant
                self.w == w,
                self.h == h,
                y <= h,
                self.dims_ok(),
                self.mine_count == orig.mine_count,
                self.is_over == orig.is_over,
                self.is_clear == orig.is_clear,
                self.requested_sounds@ == orig.requested_sounds@,
                self.rng == orig.rng,
                self.board@.len() == orig.board@.len(),
                wi == w as int && hi == h as int,
                forall|j: int|
                    0 <= j < orig.board@.len() ==> {
                        &&& (#[trigger] self.board@[j]).is_mine == orig.board@[j].is_mine
                        &&& self.board@[j].is_open == orig.board@[j].is_open
                        &&& self.board@[j].is_flagged == orig.board@[j].is_flagged
                    },
                numbers_ok_upto(self.board@, wi, hi, y as int * wi),
            decreases h - y,
        {
            let mut x: usize = 0;
            while x < w
                invariant
                    self.w == w,
                    self.h == h,
                    y < h,
                    x <= w,
                    self.dims_ok(),
                    self.mine_count == orig.mine_count,
                    self.is_over == orig.is_over,
                    self.is_clear == orig.is_clear,
                    self.requested_sounds@ == orig.requested_sounds@,
                    self.rng == orig.rng,
                    self.board@.len() == orig.board@.len(),
                    wi == w as int && hi == h as int,
                    forall|j: int|
                        0 <= j < orig.board@.len() ==> {
                            &&& (#[trigger] self.board@[j]).is_mine == orig.board@[j].is_mine
                            &&& self.board@[j].is_open == orig.board@[j].is_open
                            &&& self.board@[j].is_flagged == orig.board@[j].is_flagged
                        },
                    numbers_ok_upto(self.board@, wi, hi, y as int * wi + x as int),
                decreases w - x,
            {
                let n = self.count_bombs(x, y);
                proof {
                    lemma_idx_bounds(wi, hi, x as int, y as int);
                }
                let i = y * w + x;
                let c = self.board[i];
                let ghost prev = self.board@;
                self.board[i] = Cell {
                    is_mine: c.is_mine,
                    is_open: c.is_open,
                    is_flagged: c.is_flagged,
                    adjacent_mine_count: n,
                };
                proof {
                    let cur = self.board@;
                    assert forall|x2: int, y2: int|
                        in_b(wi, hi, x2, y2) && idx(wi, x2, y2) < y as int * wi + x as int
                            + 1 implies #[trigger] cur[idx(wi, x2, y2)].adjacent_mine_count as int
                        == adjacent_mines(cur, wi, hi, x2, y2) by {
                        lemma_idx_bounds(wi, hi, x2, y2);
                        lemma_adjacent_mines_same(prev, cur, wi, hi, x2, y2);
                        if idx(wi, x2, y2) == i as int {
                            lemma_idx_injective(wi, x2, y2, x as int, y as int);
                            assert(cur[i as int].adjacent_mine_count == n);
                        } else {
                            assert(cur[idx(wi, x2, y2)] == prev[idx(wi, x2, y2)]);
                        }
                    }
                }
                x += 1;
            }
            proof {
                assert(y as int * wi + wi == (y as int + 1) * wi) by (nonlinear_arith);
            }
            y += 1;
        }
        proof {
            assert forall|x2: int, y2: int| in_b(wi, hi, x2, y2) implies #[trigger] self.board@[idx(
                wi,
                x2,
                y2,
            )].adjacent_mine_count as int == adjacent_mines(self.board@, wi, hi, x2, y2) by {
                lemma_idx_bounds(wi, hi, x2, y2);
                assert(idx(wi, x2, y2) < hi * wi);
                assert(hi * wi == h as int * w as int);
            }
        }
    }

    /// Places `mine_count` mines on a fresh board, uniformly at random and
    /// never revisiting an already-mined cell, then derives every cell's
    /// adjacency count. Uses a partial Fisher-Yates shuffle of the cell
    /// indices, which picks each mine uniformly among the cells still free.
    pub fn init(&mut self)
        requires
            old(self).dims_ok(),
            valid_config(
                old(self).w as int,
                old(self).h as int,
                old(self).mine_count as int,
            ),
            forall|j: int| 0 <= j < old(self).board@.len() ==> old(self).board@[j] == blank_cell(),
        ensures
            final(self).inv(),
            final(self).all_closed(),
            final(self).w == old(self).w,
            final(self).h == old(self).h,
            final(self).mine_count == old(self).mine_count,
            final(self).is_over == old(self).is_over,
            final(self).is_clear == old(self).is_clear,
            final(self).requested_sounds@ == old(self).requested_sounds@,
    {
        let w = self.w;
        let h = self.h;
        let ghost wi = w as int;
        let ghost hi = h as int;
        let ghost orig = *old(self);
        let total = w * h;
        let mut indices: Vec<usize> = Vec::new();
        let mut j: usize = 0;
        while j < total
            invariant
                j <= total,
                indices@.len() == j,
                forall|k: int| 0 <= k < j ==> #[trigger] indices@[k] == k,
            decreases total - j,
        {
            indices.push(j);
            j += 1;
        }
        proof {
            crate::grid::lemma_count_mines_zero(self.board@);
        }
        let mut placed: usize = 0;
        while placed < self.mine_count
            invariant
                self.w == w,
                self.h == h,
                wi == w as int && hi == h as int,
                self.mine_count == orig.mine_count,
                self.is_over == orig.is_over,
                self.is_clear == orig.is_clear,
                self.requested_sounds@ == orig.requested_sounds@,
                self.dims_ok(),
                valid_config(wi, hi, self.mine_count as int),
                total == w * h,
                self.board@.len() == total,
                placed <= self.mine_count,
                indices@.len() == total,
                forall|k: int| 0 <= k < total ==> 0 <= #[trigger] indices@[k] < total,
                forall|k1: int, k2: int|
                    #![trigger indices@[k1], indices@[k2]]
                    0 <= k1 < k2 < total ==> indices@[k1] != indices@[k2],
                count_mines(self.board@) == placed,
                forall|j2: int|
                    0 <= j2 < total ==> {
                        &&& !(#[trigger] self.board@[j2]).is_open
                        &&& !self.board@[j2].is_flagged
                        &&& self.board@[j2].adjacent_mine_count == 0
                    },
                forall|j2: int|
                    0 <= j2 < total ==> ((#[trigger] self.board@[j2]).is_mine <==> exists|l: int|
                        0 <= l < placed && #[trigger] indices@[l] == j2),
            decreases self.mine_count - placed,
        {
            let rest = total - placed;
            let d = draw_index(&mut self.rng, rest);
            let r = placed + d;
            let chosen = indices[r];
            let at_placed = indices[placed];
            let ghost ind0 = indices@;
            indices[placed] = chosen;
            indices[r] = at_placed;
            let ghost ind1 = indices@;
            let ghost prev = self.board@;
            let c = self.board[chosen];
            proof {
                // The chosen index never repeats an earlier pick.
                if c.is_mine {
                    let l = choose|l: int| 0 <= l < placed && #[trigger] ind0[l] == chosen as int;
                    assert(ind0[l] == ind0[r as int]);
                    assert(false);
                }
            }
            self.board[chosen] = Cell {
                is_mine: true,
                is_open: false,
                is_flagged: false,
                adjacent_mine_count: 0,
            };
            proof {
                lemma_count_mines_update(prev, chosen as int, self.board@[chosen as int]);
                // The swap keeps the index vector a permutation.
                assert forall|k1: int, k2: int|
                    #![trigger ind1[k1], ind1[k2]]
                    0 <= k1 < k2 < total implies ind1[k1] != ind1[k2] by {
                    assert(ind1[k1] == if k1 == placed as int {
                        ind0[r as int]
                    } else if k1 == r as int {
                        ind0[placed as int]
                    } else {
                        ind0[k1]
                    });
                    assert(ind1[k2] == if k2 == placed as int {
                        ind0[r as int]
                    } else if k2 == r as int {
                        ind0[placed as int]
                    } else {
                        ind0[k2]
                    });
                }
                // Mines are exactly the first `placed + 1` shuffled indices.
                assert forall|j2: int| 0 <= j2 < total implies ((#[trigger] self.board@[j2]).is_mine
                    <==> exists|l: int| 0 <= l < placed + 1 && #[trigger] ind1[l] == j2) by {
                    if self.board@[j2].is_mine {
                        if j2 == chosen as int {
                            assert(ind1[placed as int] == j2);
                        } else {
                            assert(prev[j2].is_mine);
                            let l = choose|l: int| 0 <= l < placed && #[trigger] ind0[l] == j2;
                            assert(ind1[l] == ind0[l]);
                        }
                    } else {
                        if exists|l: int| 0 <= l < placed + 1 && #[trigger] ind1[l] == j2 {
                            let l = choose|l: int|
                                0 <= l < placed + 1 && #[trigger] ind1[l] == j2;
                            if l == placed as int {
                                assert(j2 == chosen as int);
                                assert(self.board@[j2].is_mine);
                            } else {
                                assert(ind1[l] == ind0[l]);
                                assert(self.board@[j2].is_mine);
                            }
                            assert(false);
                        }
                    }
                }
            }
            placed += 1;
        }
        let ghost mined = self.board@;
        self.fill_numbers();
        proof {
            lemma_count_mines_same(mined, self.board@);
            assert forall|zx: int, zy: int, nx: int, ny: int|
                #![trigger zero_cell(self.board@, wi, hi, zx, zy), crate::grid::adjacent(zx, zy, nx, ny)]
                zero_cell(self.board@, wi, hi, zx, zy) && open_at(self.board@, wi, zx, zy)
                    && crate::grid::adjacent(zx, zy, nx, ny) && in_b(wi, hi, nx, ny) implies open_at(
                self.board@,
                wi,
                nx,
                ny,
            ) by {
                lemma_idx_bounds(wi, hi, zx, zy);
            }
        }
    }

    /// Builds a fresh, fully initialized game, rejecting degenerate
    /// configurations: the grid must be non-empty, its cell count must fit
    /// the machine, and there must be at least one mine and at least one
    /// free cell.
    pub fn try_new(w: usize, h: usize, mine_count: usize, seed: u64) -> (r: Result<Game, &'static str>)
        ensures
            r is Ok <==> valid_config(w as int, h as int, mine_count as int),
            r matches Ok(g) ==> {
                &&& g.inv()
                &&& g.w == w
                &&& g.h == h
                &&& g.mine_count == mine_count
                &&& g.all_closed()
                &&& !g.is_over
                &&& !g.is_clear
                &&& g.requested_sounds@ == Seq::<Sound>::empty()
            },
    {
        if w < 1 || h < 1 {
            return Err("grid dimensions must be positive");
        }
        let total = match w.checked_mul(h) {
            Some(t) => t,
            None => {
                return Err("grid cell count does not fit the machine");
            },
        };
        if mine_count < 1 || mine_count >= total {
            return Err("mine count must be at least 1 and leave at least one free cell");
        }
        let mut board: Vec<Cell> = Vec::new();
        let mut j: usize = 0;
        while j < total
            invariant
                j <= total,
                board@.len() == j,
                forall|k: int| 0 <= k < j ==> #[trigger] board@[k] == blank_cell(),
            decreases total - j,
        {
            board.push(Cell::default());
            j += 1;
        }
        let mut game = Game {
            w,
            h,
            mine_count,
            board,
            is_over: false,
            is_clear: false,
            requested_sounds: Vec::new(),
            rng: seeded_rng(seed),
        };
        game.init();
        Ok(game)
    }

    /// The default session: a 9 by 9 board with 10 mines and a fixed seed.
    pub fn new() -> (g: Game)
        ensures
            g.inv(),
            g.w == BOARD_W,
            g.h == BOARD_H,
            g.mine_count == BOMB_COUNT,
            g.all_closed(),
            !g.is_over,
            !g.is_clear,
            g.requested_sounds@ == Seq::<Sound>::empty(),
    {
        match Game::try_new(BOARD_W, BOARD_H, BOMB_COUNT, 0) {
            Ok(g) => g,
            Err(_) => vstd::pervasive::unreached(),
        }
    }

    /// Builds a game whose mines sit exactly at the given positions:
    /// the deterministic entry for callers that already know a placement.
    /// Rejects degenerate configurations, out-of-range positions, and
    /// repeated positions.
    pub fn with_mines(w: usize, h: usize, mines: &Vec<(usize, usize)>) -> (r: Result<
        Game,
        &'static str,
    >)
        ensures
            r is Ok <==> {
                &&& valid_config(w as int, h as int, mines@.len() as int)
                &&& forall|k: int|
                    0 <= k < mines@.len() ==> (#[trigger] mines@[k]).0 < w && mines@[k].1 < h
                &&& forall|k1: int, k2: int|
                    #![trigger mines@[k1], mines@[k2]]
                    0 <= k1 < k2 < mines@.len() ==> mines@[k1] != mines@[k2]
            },
            r matches Ok(g) ==> {
                &&& g.inv()
                &&& g.w == w
                &&& g.h == h
                &&& g.mine_count == mines@.len()
                &&& g.all_closed()
                &&& !g.is_over
                &&& !g.is_clear
                &&& g.requested_sounds@ == Seq::<Sound>::empty()
                &&& forall|x: int, y: int|
                    in_b(w as int, h as int, x, y) ==> ((#[trigger] g.cell_at(x, y)).is_mine
                        <==> mines@.contains((x as usize, y as usize)))
            },
    {
        let ghost wi = w as int;
        let ghost hi = h as int;
        if w < 1 || h < 1 {
            return Err("grid dimensions must be positive");
        }
        let total = match w.checked_mul(h) {
            Some(t) => t,
            None => {
                return Err("grid cell count does not fit the machine");
            },
        };
        let n = mines.len();
        if n < 1 || n >= total {
            return Err("mine count must be at least 1 and leave at least one free cell");
        }
        let mut k: usize = 0;
        while k < n
            invariant
                n == mines@.len(),
                k <= n,
                w >= 1 && h >= 1,
                forall|l: int| 0 <= l < k ==> (#[trigger] mines@[l]).0 < w && mines@[l].1 < h,
                forall|l1: int, l2: int|
                    #![trigger mines@[l1], mines@[l2]]
                    0 <= l1 < l2 < k ==> mines@[l1] != mines@[l2],
            decreases n - k,
        {
            let (mx, my) = mines[k];
            if mx >= w || my >= h {
                return Err("mine position lies outside the grid");
            }
            let mut l: usize = 0;
            while l < k
                invariant
                    n == mines@.len(),
                    l <= k < n,
                    mines@[k as int].0 == mx && mines@[k as int].1 == my,
                    forall|l2: int| 0 <= l2 < l ==> #[trigger] mines@[l2] != mines@[k as int],
                decreases k - l,
            {
                let (px, py) = mines[l];
                if px == mx && py == my {
                    return Err("mine position is repeated");
                }
                assert(mines@[l as int] != mines@[k as int]);
                l += 1;
            }
            k += 1;
        }
        let mut board: Vec<Cell> = Vec::new();
        let mut j: usize = 0;
        while j < total
            invariant
                j <= total,
                board@.len() == j,
                forall|l: int| 0 <= l < j ==> #[trigger] board@[l] == blank_cell(),
            decreases total - j,
        {
            board.push(Cell::default());
            j += 1;
        }
        proof {
            crate::grid::lemma_count_mines_zero(board@);
            assert forall|x: int, y: int| in_b(wi, hi, x, y) implies !(#[trigger] board@[idx(
                wi,
                x,
                y,
            )]).is_mine by {
                lemma_idx_bounds(wi, hi, x, y);
            }
        }
        let mut placed: usize = 0;
        while placed < n
            invariant
                n == mines@.len(),
                placed <= n,
                1 <= n < total,
                w >= 1 && h >= 1,
                wi == w as int && hi == h as int,
                total == w * h,
                w as int * h as int <= usize::MAX,
                board@.len() == total,
                forall|l: int| 0 <= l < n ==> (#[trigger] mines@[l]).0 < w && mines@[l].1 < h,
                forall|l1: int, l2: int|
                    #![trigger mines@[l1], mines@[l2]]
                    0 <= l1 < l2 < n ==> mines@[l1] != mines@[l2],
                count_mines(board@) == placed,
                forall|j2: int|
                    0 <= j2 < total ==> {
                        &&& !(#[trigger] board@[j2]).is_open
                        &&& !board@[j2].is_flagged
                        &&& board@[j2].adjacent_mine_count == 0
                    },
                forall|x: int, y: int|
                    in_b(wi, hi, x, y) ==> ((#[trigger] board@[idx(wi, x, y)]).is_mine
                        <==> exists|l: int|
                        0 <= l < placed && #[trigger] mines@[l] == (x as usize, y as usize)),
            decreases n - placed,
        {
            let (mx, my) = mines[placed];
            proof {
                lemma_idx_bounds(wi, hi, mx as int, my as int);
            }
            let i = my * w + mx;
            let ghost prev = board@;
            proof {
                // This position has not been mined yet: positions are distinct.
                if prev[i as int].is_mine {
                    let l = choose|l: int|
                        0 <= l < placed && #[trigger] mines@[l] == (mx, my);
                    assert(mines@[l] != mines@[placed as int]);
                    assert(false);
                }
            }
            let c = board[i];
            board[i] = Cell {
                is_mine: true,
                is_open: false,
                is_flagged: false,
                adjacent_mine_count: 0,
            };
            proof {
                lemma_count_mines_update(prev, i as int, board@[i as int]);
                assert forall|x: int, y: int| in_b(wi, hi, x, y) implies ((
                #[trigger] board@[idx(wi, x, y)]).is_mine <==> exists|l: int|
                    0 <= l < placed + 1 && #[trigger] mines@[l] == (x as usize, y as usize)) by {
                    lemma_idx_bounds(wi, hi, x, y);
                    if board@[idx(wi, x, y)].is_mine {
                        if idx(wi, x, y) == i as int {
                            lemma_idx_injective(wi, x, y, mx as int, my as int);
                            assert(mines@[placed as int] == (x as usize, y as usize));
                        } else {
                            assert(prev[idx(wi, x, y)].is_mine);
                            let l = choose|l: int|
                                0 <= l < placed && #[trigger] mines@[l] == (x as usize, y as usize);
                            assert(0 <= l < placed + 1 && mines@[l] == (x as usize, y as usize));
                        }
                    } else {
                        if exists|l: int|
                            0 <= l < placed + 1 && #[trigger] mines@[l] == (x as usize, y as usize) {
                            let l = choose|l: int|
                                0 <= l < placed + 1 && #[trigger] mines@[l] == (
                                x as usize,
                                y as usize,
                            );
                            if l == placed as int {
                                assert(x == mx as int && y == my as int);
                                assert(board@[idx(wi, x, y)].is_mine);
                            } else {
                                assert(prev[idx(wi, x, y)].is_mine);
                                assert(idx(wi, x, y) != i as int || board@[idx(wi, x, y)].is_mine);
                                assert(board@[idx(wi, x, y)].is_mine);
                            }
                            assert(false);
                        }
                    }
                }
            }
            placed += 1;
        }
        let mut game = Game {
            w,
            h,
            mine_count: n,
            board,
            is_over: false,
            is_clear: false,
            requested_sounds: Vec::new(),
            rng: seeded_rng(0),
        };
        let ghost mined = game.board@;
        game.fill_numbers();
        proof {
            lemma_count_mines_same(mined, game.board@);
            assert forall|zx: int, zy: int, nx: int, ny: int|
                #![trigger zero_cell(game.board@, wi, hi, zx, zy), crate::grid::adjacent(zx, zy, nx, ny)]
                zero_cell(game.board@, wi, hi, zx, zy) && open_at(game.board@, wi, zx, zy)
                    && crate::grid::adjacent(zx, zy, nx, ny) && in_b(wi, hi, nx, ny) implies open_at(
                game.board@,
                wi,
                nx,
                ny,
            ) by {
                lemma_idx_bounds(wi, hi, zx, zy);
            }
            assert forall|x: int, y: int| in_b(wi, hi, x, y) implies ((
            #[trigger] game.cell_at(x, y)).is_mine <==> mines@.contains((x as usize, y as usize)))
                by {
                lemma_idx_bounds(wi, hi, x, y);
                assert(game.board@[idx(wi, x, y)].is_mine == mined[idx(wi, x, y)].is_mine);
            }
        }
        Ok(game)
    }

}

/// The state of the reveal loop: the board so far, the work stack, and
/// how both relate to the starting position `(sx, sy)` and the board as
/// it was when the reveal began.
spec fn flood_inv(pre: Game, cur: Game, st: Seq<(usize, usize)>, sx: usize, sy: usize) -> bool {
    let wi = pre.w as int;
    let hi = pre.h as int;
    let sxi = sx as int;
    let syi = sy as int;
    let sz = zero_cell(pre.board@, wi, hi, sxi, syi);
    &&& pre.inv()
    &&& sx < pre.w && sy < pre.h
    &&& cur.w == pre.w && cur.h == pre.h && cur.mine_count == pre.mine_count
    &&& cur.is_over == pre.is_over && cur.is_clear == pre.is_clear
    &&& cur.requested_sounds@ == pre.requested_sounds@
    &&& cur.rng == pre.rng
    &&& cur.dims_ok()
    &&& cells_frame(pre.board@, cur.board@)
    &&& 0 <= count_closed(cur.board@)
    &&& (forall|k: int| 0 <= k < st.len() ==> (#[trigger] st[k]).0 < pre.w && st[k].1 < pre.h)
    &&& (forall|k: int|
        0 <= k < st.len() ==> {
            let e = #[trigger] st[k];
            (e.0 == sx && e.1 == sy) || (sz && in_closure(
                pre.board@,
                wi,
                hi,
                sxi,
                syi,
                e.0 as int,
                e.1 as int,
            ))
        })
    &&& (forall|cx: int, cy: int|
        in_b(wi, hi, cx, cy) && !open_at(pre.board@, wi, cx, cy) && #[trigger] open_at(
            cur.board@,
            wi,
            cx,
            cy,
        ) ==> (cx == sxi && cy == syi) || (sz && in_closure(pre.board@, wi, hi, sxi, syi, cx, cy)))
    &&& ((!pre.cell_at(sxi, syi).is_open && !pre.cell_at(sxi, syi).is_mine) ==> (open_at(
        cur.board@,
        wi,
        sxi,
        syi,
    ) || on_stack(st, sxi, syi)))
    &&& ((pre.cell_at(sxi, syi).is_open || pre.cell_at(sxi, syi).is_mine) ==> (cur.board@
        == pre.board@ && forall|k: int| 0 <= k < st.len() ==> (#[trigger] st[k]) == (sx, sy)))
    &&& region_inv_mod(cur.board@, wi, hi, st)
}

/// Pushes every in-bounds neighbor of `(cx, cy)` onto the work stack,
/// leaving the existing elements in place.
fn flood_expand(stack: &mut Vec<(usize, usize)>, w: usize, h: usize, cx: usize, cy: usize)
    requires
        cx < w,
        cy < h,
    ensures
        old(stack)@.len() <= final(stack)@.len(),
        forall|k: int| 0 <= k < old(stack)@.len() ==> #[trigger] final(stack)@[k] == old(stack)@[k],
        forall|k: int|
            old(stack)@.len() <= k < final(stack)@.len() ==> {
                let e = #[trigger] final(stack)@[k];
                e.0 < w && e.1 < h && adjacent(cx as int, cy as int, e.0 as int, e.1 as int)
            },
        forall|nx: int, ny: int|
            adjacent(cx as int, cy as int, nx, ny) && in_b(w as int, h as int, nx, ny)
                ==> on_stack(final(stack)@, nx, ny),
{
    let ghost g0 = stack@;
    if cx >= 1 && cy >= 1 {
        stack.push((cx - 1, cy - 1));
    }
    let ghost g1 = stack@;
    if cy >= 1 {
        stack.push((cx, cy - 1));
    }
    let ghost g2 = stack@;
    if cx + 1 < w && cy >= 1 {
        stack.push((cx + 1, cy - 1));
    }
    let ghost g3 = stack@;
    if cx >= 1 {
        stack.push((cx - 1, cy));
    }
    let ghost g4 = stack@;
    if cx + 1 < w {
        stack.push((cx + 1, cy));
    }
    let ghost g5 = stack@;
    if cx >= 1 && cy + 1 < h {
        stack.push((cx - 1, cy + 1));
    }
    let ghost g6 = stack@;
    if cy + 1 < h {
        stack.push((cx, cy + 1));
    }
    let ghost g7 = stack@;
    if cx + 1 < w && cy + 1 < h {
        stack.push((cx + 1, cy + 1));
    }
    let ghost g8 = stack@;
    proof {
        assert forall|nx: int, ny: int|
            adjacent(cx as int, cy as int, nx, ny) && in_b(w as int, h as int, nx, ny) implies
            on_stack(g8, nx, ny) by {
            let dx = nx - cx as int;
            let dy = ny - cy as int;
            if dy == -1 {
                if dx == -1 {
                    assert(g1[g0.len() as int] == ((cx - 1) as usize, (cy - 1) as usize));
                    assert(g8[g0.len() as int] == g1[g0.len() as int]);
                } else if dx == 0 {
                    assert(g2[g1.len() as int] == (cx, (cy - 1) as usize));
                    assert(g8[g1.len() as int] == g2[g1.len() as int]);
                } else {
                    assert(g3[g2.len() as int] == ((cx + 1) as usize, (cy - 1) as usize));
                    assert(g8[g2.len() as int] == g3[g2.len() as int]);
                }
            } else if dy == 0 {
                if dx == -1 {
                    assert(g4[g3.len() as int] == ((cx - 1) as usize, cy));
                    assert(g8[g3.len() as int] == g4[g3.len() as int]);
                } else {
                    assert(g5[g4.len() as int] == ((cx + 1) as usize, cy));
                    assert(g8[g4.len() as int] == g5[g4.len() as int]);
                }
            } else {
                if dx == -1 {
                    assert(g6[g5.len() as int] == ((cx - 1) as usize, (cy + 1) as usize));
                    assert(g8[g5.len() as int] == g6[g5.len() as int]);
                } else if dx == 0 {
                    assert(g7[g6.len() as int] == (cx, (cy + 1) as usize));
                    assert(g8[g6.len() as int] == g7[g6.len() as int]);
                } else {
                    assert(g8[g7.len() as int] == ((cx + 1) as usize, (cy + 1) as usize));
                }
            }
        }
    }
}

impl Game {
    /// Opens the closed, mine-free cell `(cx, cy)` taken from the stack
    /// and, when it is zero-count, queues all of its neighbors.
    #[verifier::rlimit(100)]
    fn flood_open(
        &mut self,
        stack: &mut Vec<(usize, usize)>,
        sx: usize,
        sy: usize,
        cx: usize,
        cy: usize,
        Ghost(pre): Ghost<Game>,
        Ghost(st0): Ghost<Seq<(usize, usize)>>,
    )
        requires
            st0.len() > 0,
            st0[st0.len() - 1] == (cx, cy),
            old(stack)@ == st0.subrange(0, st0.len() - 1),
            flood_inv(pre, *old(self), st0, sx, sy),
            cx < old(self).w,
            cy < old(self).h,
            !old(self).cell_at(cx as int, cy as int).is_open,
            !old(self).cell_at(cx as int, cy as int).is_mine,
        ensures
            flood_inv(pre, *final(self), final(stack)@, sx, sy),
            count_closed(final(self).board@) < count_closed(old(self).board@),
    {
        let w = self.w;
        let h = self.h;
        let ghost wi = w as int;
        let ghost hi = h as int;
        let ghost sxi = sx as int;
        let ghost syi = sy as int;
        let ghost sz = zero_cell(pre.board@, wi, hi, sxi, syi);
        let ghost st1 = stack@;
        proof {
            lemma_idx_bounds(wi, hi, cx as int, cy as int);
            // The start was neither open nor a mine, else the board would
            // have stayed untouched and only the start could be popped.
            if pre.cell_at(sxi, syi).is_open || pre.cell_at(sxi, syi).is_mine {
                assert(st0[st0.len() - 1] == (sx, sy));
                assert(self.board@[idx(wi, sxi, syi)] == pre.board@[idx(wi, sxi, syi)]);
                assert(false);
            }
        }
        let i = cy * w + cx;
        let c = self.board[i];
        let ghost prev = self.board@;
        self.board[i] = Cell {
            is_mine: false,
            is_open: true,
            is_flagged: false,
            adjacent_mine_count: c.adjacent_mine_count,
        };
        let ghost cur = self.board@;
        proof {
            lemma_count_closed_update(prev, i as int, cur[i as int]);
            crate::grid::lemma_count_closed_bounds(cur);
            // The popped cell is the start or lies in the closure.
            assert((cx == sx && cy == sy) || (sz && in_closure(
                pre.board@,
                wi,
                hi,
                sxi,
                syi,
                cx as int,
                cy as int,
            )));
        }
        if c.adjacent_mine_count == 0 {
            proof {
                // The popped cell is zero-count, so it belongs to the
                // start's zero region.
                assert(zero_cell(pre.board@, wi, hi, cx as int, cy as int));
                if cx == sx && cy == sy {
                    lemma_reach_self(pre.board@, wi, hi, sxi, syi);
                } else {
                    lemma_closure_zero_reach(pre.board@, wi, hi, sxi, syi, cx as int, cy as int);
                }
                assert(sz);
                assert(crate::grid::region_reach(
                    pre.board@,
                    wi,
                    hi,
                    sxi,
                    syi,
                    cx as int,
                    cy as int,
                ));
            }
            flood_expand(stack, w, h, cx, cy);
            proof {
                let stf = stack@;
                lemma_on_stack_prefix(st1, stf);
                // Every stack element is in bounds and within the closure.
                assert forall|k: int| 0 <= k < stf.len() implies {
                    let e = #[trigger] stf[k];
                    (e.0 == sx && e.1 == sy) || (sz && in_closure(
                        pre.board@,
                        wi,
                        hi,
                        sxi,
                        syi,
                        e.0 as int,
                        e.1 as int,
                    ))
                } by {
                    if k < st1.len() {
                        assert(stf[k] == st1[k]);
                        assert(st1[k] == st0[k]);
                    } else {
                        let e = stf[k];
                        assert(adjacent(cx as int, cy as int, e.0 as int, e.1 as int) && in_b(
                            wi,
                            hi,
                            e.0 as int,
                            e.1 as int,
                        ));
                        lemma_closure_border(
                            pre.board@,
                            wi,
                            hi,
                            sxi,
                            syi,
                            cx as int,
                            cy as int,
                            e.0 as int,
                            e.1 as int,
                        );
                    }
                }
                // The freshly opened zero cell sends all its neighbors to
                // the stack; every other open zero cell keeps its
                // obligations.
                assert forall|zx: int, zy: int, nx: int, ny: int|
                    #![trigger zero_cell(cur, wi, hi, zx, zy), adjacent(zx, zy, nx, ny)]
                    zero_cell(cur, wi, hi, zx, zy) && open_at(cur, wi, zx, zy) && adjacent(
                        zx,
                        zy,
                        nx,
                        ny,
                    ) && in_b(wi, hi, nx, ny) implies (open_at(cur, wi, nx, ny) || on_stack(
                    stf,
                    nx,
                    ny,
                )) by {
                    lemma_idx_bounds(wi, hi, zx, zy);
                    lemma_idx_bounds(wi, hi, nx, ny);
                    if zx == cx as int && zy == cy as int {
                        assert(on_stack(stf, nx, ny));
                    } else {
                        if idx(wi, zx, zy) == i as int {
                            lemma_idx_injective(wi, zx, zy, cx as int, cy as int);
                            assert(false);
                        }
                        assert(cur[idx(wi, zx, zy)] == prev[idx(wi, zx, zy)]);
                        assert(zero_cell(prev, wi, hi, zx, zy) && open_at(prev, wi, zx, zy));
                        if !open_at(prev, wi, nx, ny) {
                            assert(on_stack(st0, nx, ny));
                            let k = choose|k: int|
                                0 <= k < st0.len() && (#[trigger] st0[k]).0 == nx && st0[k].1
                                    == ny;
                            if k < st0.len() - 1 {
                                assert(st1[k] == st0[k]);
                                assert(on_stack(st1, nx, ny));
                            } else {
                                assert(nx == cx as int && ny == cy as int);
                                assert(open_at(cur, wi, nx, ny));
                            }
                        }
                    }
                }
            }
        } else {
            proof {
                // The opened cell is numbered, so it creates no new
                // obligations; old ones aimed at it are now met.
                assert forall|zx: int, zy: int, nx: int, ny: int|
                    #![trigger zero_cell(cur, wi, hi, zx, zy), adjacent(zx, zy, nx, ny)]
                    zero_cell(cur, wi, hi, zx, zy) && open_at(cur, wi, zx, zy) && adjacent(
                        zx,
                        zy,
                        nx,
                        ny,
                    ) && in_b(wi, hi, nx, ny) implies (open_at(cur, wi, nx, ny) || on_stack(
                    st1,
                    nx,
                    ny,
                )) by {
                    lemma_idx_bounds(wi, hi, zx, zy);
                    lemma_idx_bounds(wi, hi, nx, ny);
                    assert(!(zx == cx as int && zy == cy as int));
                    if idx(wi, zx, zy) == i as int {
                        lemma_idx_injective(wi, zx, zy, cx as int, cy as int);
                        assert(false);
                    }
                    assert(cur[idx(wi, zx, zy)] == prev[idx(wi, zx, zy)]);
                    assert(zero_cell(prev, wi, hi, zx, zy) && open_at(prev, wi, zx, zy));
                    if !open_at(prev, wi, nx, ny) {
                        assert(on_stack(st0, nx, ny));
                        let k = choose|k: int|
                            0 <= k < st0.len() && (#[trigger] st0[k]).0 == nx && st0[k].1 == ny;
                        if k < st0.len() - 1 {
                            assert(st1[k] == st0[k]);
                            assert(on_stack(st1, nx, ny));
                        } else {
                            assert(nx == cx as int && ny == cy as int);
                            assert(open_at(cur, wi, nx, ny));
                        }
                    }
                }
            }
        }
        proof {
            // Newly opened cells stay within the start closure, and the
            // start keeps its place on the stack until it is revealed.
            let stf = stack@;
            assert forall|cx2: int, cy2: int|
                in_b(wi, hi, cx2, cy2) && !open_at(pre.board@, wi, cx2, cy2) && #[trigger] open_at(
                    cur,
                    wi,
                    cx2,
                    cy2,
                ) implies (cx2 == sxi && cy2 == syi) || (sz && in_closure(
                pre.board@,
                wi,
                hi,
                sxi,
                syi,
                cx2,
                cy2,
            )) by {
                lemma_idx_bounds(wi, hi, cx2, cy2);
                if idx(wi, cx2, cy2) == i as int {
                    lemma_idx_injective(wi, cx2, cy2, cx as int, cy as int);
                    assert((cx == sx && cy == sy) || (sz && in_closure(
                        pre.board@,
                        wi,
                        hi,
                        sxi,
                        syi,
                        cx as int,
                        cy as int,
                    )));
                } else {
                    assert(cur[idx(wi, cx2, cy2)] == prev[idx(wi, cx2, cy2)]);
                    assert(open_at(prev, wi, cx2, cy2));
                }
            }
            if !open_at(cur, wi, sxi, syi) {
                lemma_idx_bounds(wi, hi, sxi, syi);
                if idx(wi, sxi, syi) == i as int {
                    assert(open_at(cur, wi, sxi, syi));
                    assert(false);
                }
                assert(open_at(prev, wi, sxi, syi) == open_at(cur, wi, sxi, syi));
                assert(on_stack(st0, sxi, syi));
                let k = choose|k: int|
                    0 <= k < st0.len() && (#[trigger] st0[k]).0 == sxi && st0[k].1 == syi;
                if k < st0.len() - 1 {
                    assert(st1[k] == st0[k]);
                    assert(on_stack(st1, sxi, syi));
                } else {
                    lemma_idx_injective(wi, sxi, syi, cx as int, cy as int);
                    assert(false);
                }
                if c.adjacent_mine_count == 0 {
                    assert(on_stack(stack@, sxi, syi));
                } else {
                    assert(stack@ == st1);
                    assert(on_stack(stack@, sxi, syi));
                }
            }
        }
    }

    /// Pops one position from the work stack and handles it: a closed,
    /// mine-free cell is revealed (and expanded if zero-count), anything
    /// else is skipped.
    #[verifier::rlimit(100)]
    fn flood_step(
        &mut self,
        stack: &mut Vec<(usize, usize)>,
        sx: usize,
        sy: usize,
        Ghost(pre): Ghost<Game>,
    )
        requires
            old(stack)@.len() > 0,
            flood_inv(pre, *old(self), old(stack)@, sx, sy),
        ensures
            flood_inv(pre, *final(self), final(stack)@, sx, sy),
            count_closed(final(self).board@) < count_closed(old(self).board@) || (count_closed(
                final(self).board@,
            ) == count_closed(old(self).board@) && final(stack)@.len() < old(stack)@.len()),
    {
        let w = self.w;
        let h = self.h;
        let ghost wi = w as int;
        let ghost hi = h as int;
        let ghost sxi = sx as int;
        let ghost syi = sy as int;
        let ghost st0 = stack@;
        let top = stack.pop().unwrap();
        let ghost st1 = stack@;
        let cx = top.0;
        let cy = top.1;
        proof {
            assert(top == st0[st0.len() - 1]);
            assert(cx < w && cy < h);
            lemma_idx_bounds(wi, hi, cx as int, cy as int);
            assert forall|k: int| 0 <= k < st1.len() implies #[trigger] st1[k] == st0[k] by {}
        }
        let i = cy * w + cx;
        let c = self.board[i];
        if !c.is_open && !c.is_mine {
            self.flood_open(stack, sx, sy, cx, cy, Ghost(pre), Ghost(st0));
        } else {
            proof {
                // Nothing was revealed: obligations aimed at the popped
                // cell are met (it is open) or impossible (a mine next to
                // a zero-count cell).
                let cur = self.board@;
                assert forall|zx: int, zy: int, nx: int, ny: int|
                    #![trigger zero_cell(cur, wi, hi, zx, zy), adjacent(zx, zy, nx, ny)]
                    zero_cell(cur, wi, hi, zx, zy) && open_at(cur, wi, zx, zy) && adjacent(
                        zx,
                        zy,
                        nx,
                        ny,
                    ) && in_b(wi, hi, nx, ny) implies (open_at(cur, wi, nx, ny) || on_stack(
                    st1,
                    nx,
                    ny,
                )) by {
                    lemma_idx_bounds(wi, hi, zx, zy);
                    lemma_idx_bounds(wi, hi, nx, ny);
                    if !open_at(cur, wi, nx, ny) {
                        assert(on_stack(st0, nx, ny));
                        let k = choose|k: int|
                            0 <= k < st0.len() && (#[trigger] st0[k]).0 == nx && st0[k].1 == ny;
                        if k < st0.len() - 1 {
                            assert(st1[k] == st0[k]);
                            assert(on_stack(st1, nx, ny));
                        } else {
                            assert(nx == cx as int && ny == cy as int);
                            if c.is_mine {
                                // The stored count of the zero cell is its
                                // true count, which a mine neighbor would
                                // contradict.
                                assert(cur[idx(wi, zx, zy)].adjacent_mine_count as int
                                    == adjacent_mines(cur, wi, hi, zx, zy)) by {
                                    assert(pre.board@[idx(wi, zx, zy)].adjacent_mine_count as int
                                        == adjacent_mines(pre.board@, wi, hi, zx, zy));
                                    lemma_adjacent_mines_same(pre.board@, cur, wi, hi, zx, zy);
                                }
                                lemma_zero_no_mine_neighbor(cur, wi, hi, zx, zy, nx, ny);
                                assert(false);
                            } else {
                                assert(c.is_open);
                                assert(false);
                            }
                        }
                    }
                }
                // If the start is still owed a reveal, it stays on the
                // shrunken stack.
                if !pre.cell_at(sxi, syi).is_open && !pre.cell_at(sxi, syi).is_mine && !open_at(
                    self.board@,
                    wi,
                    sxi,
                    syi,
                ) && on_stack(st0, sxi, syi) {
                    let k = choose|k: int|
                        0 <= k < st0.len() && (#[trigger] st0[k]).0 == sxi && st0[k].1 == syi;
                    if k < st0.len() - 1 {
                        assert(st1[k] == st0[k]);
                        assert(on_stack(st1, sxi, syi));
                    } else {
                        assert(cx as int == sxi && cy as int == syi);
                        assert(c == self.board@[idx(wi, sxi, syi)]);
                        if c.is_open {
                            assert(open_at(self.board@, wi, sxi, syi));
                        } else {
                            assert(c.is_mine);
                            assert(self.board@[idx(wi, sxi, syi)].is_mine == pre.board@[idx(
                                wi,
                                sxi,
                                syi,
                            )].is_mine);
                        }
                        assert(false);
                    }
                }
            }
        }
    }

    /// Reveals `(center_x, center_y)` and, when that cell has no adjacent
    /// mines, cascades through its connected zero-count region and the
    /// numbered border around it. Mines and already-open cells are left
    /// untouched. Runs on an explicit work stack; each iteration either
    /// opens a cell or shrinks the stack.
    pub fn auto_open(&mut self, center_x: usize, center_y: usize)
        requires
            old(self).inv(),
            center_x < old(self).w,
            center_y < old(self).h,
        ensures
            final(self).inv(),
            auto_open_post(*old(self), *final(self), center_x as int, center_y as int),
    {
        let ghost wi = old(self).w as int;
        let ghost hi = old(self).h as int;
        let ghost pre = *old(self);
        let ghost sxi = center_x as int;
        let ghost syi = center_y as int;
        let mut stack: Vec<(usize, usize)> = Vec::new();
        stack.push((center_x, center_y));
        proof {
            assert(stack@[0] == (center_x, center_y));
            assert(on_stack(stack@, sxi, syi));
            crate::grid::lemma_count_closed_bounds(self.board@);
        }
        while stack.len() > 0
            invariant
                flood_inv(pre, *self, stack@, center_x, center_y),
                pre == *old(self),
                wi == pre.w as int && hi == pre.h as int,
                sxi == center_x as int && syi == center_y as int,
            decreases count_closed(self.board@), stack@.len(),
        {
            self.flood_step(&mut stack, center_x, center_y, Ghost(pre));
        }
        proof {
            let cur = self.board@;
            // The untouched fields of the board carry the counting and
            // flag invariants over from the initial state.
            lemma_count_mines_same(pre.board@, cur);
            assert forall|x2: int, y2: int| in_b(wi, hi, x2, y2) implies #[trigger] cur[idx(
                wi,
                x2,
                y2,
            )].adjacent_mine_count as int == adjacent_mines(cur, wi, hi, x2, y2) by {
                lemma_idx_bounds(wi, hi, x2, y2);
                lemma_adjacent_mines_same(pre.board@, cur, wi, hi, x2, y2);
            }
            // An empty stack turns the weakened invariant into the real one.
            assert(region_inv(cur, wi, hi)) by {
                assert forall|zx: int, zy: int, nx: int, ny: int|
                    #![trigger zero_cell(cur, wi, hi, zx, zy), adjacent(zx, zy, nx, ny)]
                    zero_cell(cur, wi, hi, zx, zy) && open_at(cur, wi, zx, zy) && adjacent(
                        zx,
                        zy,
                        nx,
                        ny,
                    ) && in_b(wi, hi, nx, ny) implies open_at(cur, wi, nx, ny) by {
                    assert(!on_stack(stack@, nx, ny));
                }
            }
            // A numbered start opens nothing but itself.
            if !pre.cell_at(sxi, syi).is_open && !pre.cell_at(sxi, syi).is_mine && pre.cell_at(
                sxi,
                syi,
            ).adjacent_mine_count != 0 {
                assert(!zero_cell(pre.board@, wi, hi, sxi, syi));
                assert forall|cx2: int, cy2: int|
                    in_b(wi, hi, cx2, cy2) && !(cx2 == sxi && cy2 == syi) implies #[trigger] open_at(
                    cur,
                    wi,
                    cx2,
                    cy2,
                ) == open_at(pre.board@, wi, cx2, cy2) by {
                    lemma_idx_bounds(wi, hi, cx2, cy2);
                }
            }
        }
    }

    /// Reveals the cell at `(x, y)`: a no-op when it is already open, a
    /// loss (with a crash sound) when it holds a mine, and otherwise an
    /// auto-open flood-fill followed by the win check.
    pub fn open(&mut self, x: usize, y: usize)
        requires
            old(self).inv(),
            x < old(self).w,
            y < old(self).h,
        ensures
            final(self).inv(),
            open_post(*old(self), *final(self), x as int, y as int),
    {
        let w = self.w;
        let h = self.h;
        let ghost wi = w as int;
        let ghost hi = h as int;
        let ghost pre = *old(self);
        proof {
            lemma_idx_bounds(wi, hi, x as int, y as int);
        }
        let i = y * w + x;
        let c = self.board[i];
        if c.is_open {
            return ;
        }
        if c.is_mine {
            let ghost prev = self.board@;
            self.board[i] = Cell {
                is_mine: c.is_mine,
                is_open: true,
                is_flagged: false,
                adjacent_mine_count: c.adjacent_mine_count,
            };
            self.is_over = true;
            self.requested_sounds.push(Sound::Crash);
            proof {
                let cur = self.board@;
                assert(cur == prev.update(i as int, opened_cell(pre.cell_at(x as int, y as int))));
                lemma_count_mines_update(prev, i as int, cur[i as int]);
                assert forall|x2: int, y2: int| in_b(wi, hi, x2, y2) implies #[trigger] cur[idx(
                    wi,
                    x2,
                    y2,
                )].adjacent_mine_count as int == adjacent_mines(cur, wi, hi, x2, y2) by {
                    lemma_idx_bounds(wi, hi, x2, y2);
                    lemma_adjacent_mines_same(prev, cur, wi, hi, x2, y2);
                }
                // The revealed mine is not a zero-count cell, so every open
                // zero cell already had open neighbors.
                assert(region_inv(cur, wi, hi)) by {
                    assert forall|zx: int, zy: int, nx: int, ny: int|
                        #![trigger zero_cell(cur, wi, hi, zx, zy), adjacent(zx, zy, nx, ny)]
                        zero_cell(cur, wi, hi, zx, zy) && open_at(cur, wi, zx, zy) && adjacent(
                            zx,
                            zy,
                            nx,
                            ny,
                        ) && in_b(wi, hi, nx, ny) implies open_at(cur, wi, nx, ny) by {
                        lemma_idx_bounds(wi, hi, zx, zy);
                        lemma_idx_bounds(wi, hi, nx, ny);
                        if idx(wi, zx, zy) == i as int {
                            assert(!cur[i as int].is_mine);
                            assert(false);
                        }
                        assert(cur[idx(wi, zx, zy)] == prev[idx(wi, zx, zy)]);
                        assert(zero_cell(prev, wi, hi, zx, zy));
                        assert(open_at(prev, wi, zx, zy));
                        assert(open_at(prev, wi, nx, ny));
                        assert(idx(wi, nx, ny) != i as int || cur[idx(wi, nx, ny)].is_open);
                        assert(cur[idx(wi, nx, ny)].is_open || cur[idx(wi, nx, ny)] == prev[idx(
                            wi,
                            nx,
                            ny,
                        )]);
                    }
                }
            }
        } else {
            self.auto_open(x, y);
            let total = w * h;
            let mut all_open = true;
            let mut j: usize = 0;
            while j < total
                invariant
                    j <= total,
                    total == self.board@.len(),
                    all_open == (forall|k: int|
                        0 <= k < j ==> ((#[trigger] self.board@[k]).is_mine
                            || self.board@[k].is_open)),
                decreases total - j,
            {
                if !self.board[j].is_mine && !self.board[j].is_open {
                    all_open = false;
                }
                j += 1;
            }
            if all_open {
                self.is_clear = true;
            }
        }
    }

    /// Toggles the flag on the closed cell at `(x, y)`; a no-op when the
    /// cell is already open.
    pub fn flag(&mut self, x: usize, y: usize)
        requires
            old(self).inv(),
            x < old(self).w,
            y < old(self).h,
        ensures
            final(self).inv(),
            flag_post(*old(self), *final(self), x as int, y as int),
    {
        let w = self.w;
        let h = self.h;
        let ghost wi = w as int;
        let ghost hi = h as int;
        let ghost pre = *old(self);
        proof {
            lemma_idx_bounds(wi, hi, x as int, y as int);
        }
        let i = y * w + x;
        let c = self.board[i];
        if c.is_open {
            return ;
        }
        let ghost prev = self.board@;
        self.board[i] = Cell {
            is_mine: c.is_mine,
            is_open: c.is_open,
            is_flagged: !c.is_flagged,
            adjacent_mine_count: c.adjacent_mine_count,
        };
        proof {
            let cur = self.board@;
            assert(cur == prev.update(i as int, toggled_cell(pre.cell_at(x as int, y as int))));
            lemma_count_mines_update(prev, i as int, cur[i as int]);
            assert forall|x2: int, y2: int| in_b(wi, hi, x2, y2) implies #[trigger] cur[idx(
                wi,
                x2,
                y2,
            )].adjacent_mine_count as int == adjacent_mines(cur, wi, hi, x2, y2) by {
                lemma_idx_bounds(wi, hi, x2, y2);
                lemma_adjacent_mines_same(prev, cur, wi, hi, x2, y2);
            }
            // Flagging changes no cell's openness.
            assert(region_inv(cur, wi, hi)) by {
                assert forall|zx: int, zy: int, nx: int, ny: int|
                    #![trigger zero_cell(cur, wi, hi, zx, zy), adjacent(zx, zy, nx, ny)]
                    zero_cell(cur, wi, hi, zx, zy) && open_at(cur, wi, zx, zy) && adjacent(
                        zx,
                        zy,
                        nx,
                        ny,
                    ) && in_b(wi, hi, nx, ny) implies open_at(cur, wi, nx, ny) by {
                    lemma_idx_bounds(wi, hi, zx, zy);
                    lemma_idx_bounds(wi, hi, nx, ny);
                    assert(zero_cell(prev, wi, hi, zx, zy));
                    assert(open_at(prev, wi, zx, zy));
                    assert(open_at(prev, wi, nx, ny));
                }
            }
        }
    }

    /// Dispatches one command: ignored entirely once the game is over or
    /// cleared, otherwise `Open` reveals and `Flag` toggles.
    pub fn update(&mut self, command: Command)
        requires
            old(self).inv(),
            command_in_bounds(*old(self), command),
        ensures
            final(self).inv(),
            step_post(*old(self), *final(self), command),
    {
        if self.is_over || self.is_clear {
            return ;
        }
        match command {
            Command::Open(x, y) => {
                self.open(x, y);
            },
            Command::Flag(x, y) => {
                self.flag(x, y);
            },
            Command::Noop => {},
        }
    }
}

/// The smaller of `value` and `max`, but never below `min`: `value`
/// clamped to the interval, under any order that obeys its specification.
pub fn clamp<T: PartialOrd>(min: T, value: T, max: T) -> (r: T)
    ensures
        T::obeys_partial_cmp_spec() ==> r == (if value.partial_cmp_spec(&min) matches Some(
            core::cmp::Ordering::Less,
        ) {
            min
        } else if value.partial_cmp_spec(&max) matches Some(core::cmp::Ordering::Greater) {
            max
        } else {
            value
        }),
{
    if value < min {
        return min;
    }
    if value > max {
        return max;
    }
    value
}

/// No cell is both open and flagged.
pub open spec fn no_flagged_open(cells: Seq<Cell>) -> bool {
    forall|j: int| 0 <= j < cells.len() ==> !((#[trigger] cells[j]).is_open && cells[j].is_flagged)
}

/// What the auto-open flood-fill at `(x, y)` does: it touches only cell
/// openness (and, through it, flags), opens the starting cell when that
/// cell is safe, cascades exactly over the connected zero-count region and
/// its border, and leaves the session state alone.
pub open spec fn auto_open_post(pre: Game, post: Game, x: int, y: int) -> bool {
    let w = pre.w as int;
    let h = pre.h as int;
    &&& post.w == pre.w
    &&& post.h == pre.h
    &&& post.mine_count == pre.mine_count
    &&& post.is_over == pre.is_over
    &&& post.is_clear == pre.is_clear
    &&& post.requested_sounds@ == pre.requested_sounds@
    &&& post.rng == pre.rng
    &&& cells_frame(pre.board@, post.board@)
    &&& ((pre.cell_at(x, y).is_open || pre.cell_at(x, y).is_mine) ==> post.board@ == pre.board@)
    &&& (!pre.cell_at(x, y).is_open && !pre.cell_at(x, y).is_mine ==> {
        &&& post.cell_at(x, y).is_open
        &&& (pre.cell_at(x, y).adjacent_mine_count != 0 ==> forall|cx: int, cy: int|
            in_b(w, h, cx, cy) && !(cx == x && cy == y) ==> #[trigger] open_at(
                post.board@,
                w,
                cx,
                cy,
            ) == open_at(pre.board@, w, cx, cy))
        &&& (forall|cx: int, cy: int|
            in_b(w, h, cx, cy) && !open_at(pre.board@, w, cx, cy) && #[trigger] open_at(
                post.board@,
                w,
                cx,
                cy,
            ) ==> (cx == x && cy == y) || (pre.cell_at(x, y).adjacent_mine_count == 0 && in_closure(
                pre.board@,
                w,
                h,
                x,
                y,
                cx,
                cy,
            )))
    })
}

/// What a reveal at `(x, y)` does to the whole game.
pub open spec fn open_post(pre: Game, post: Game, x: int, y: int) -> bool {
    let w = pre.w as int;
    let h = pre.h as int;
    &&& post.w == pre.w
    &&& post.h == pre.h
    &&& post.mine_count == pre.mine_count
    &&& post.rng == pre.rng
    &&& if pre.cell_at(x, y).is_open {
        // Already revealed: a full no-op.
        post == pre
    } else if pre.cell_at(x, y).is_mine {
        // Detonation: only this cell opens, the game is lost, and one
        // crash sound is enqueued.
        &&& post.board@ == pre.board@.update(idx(w, x, y), opened_cell(pre.cell_at(x, y)))
        &&& post.is_over
        &&& post.is_clear == pre.is_clear
        &&& post.requested_sounds@ == pre.requested_sounds@.push(Sound::Crash)
    } else {
        // Safe reveal: flood-fill from `(x, y)`, then the win check.
        &&& post.is_over == pre.is_over
        &&& post.requested_sounds@ == pre.requested_sounds@
        &&& cells_frame(pre.board@, post.board@)
        &&& post.cell_at(x, y).is_open
        &&& (pre.cell_at(x, y).adjacent_mine_count != 0 ==> forall|cx: int, cy: int|
            in_b(w, h, cx, cy) && !(cx == x && cy == y) ==> #[trigger] open_at(post.board@, w, cx, cy)
                == open_at(pre.board@, w, cx, cy))
        &&& (forall|cx: int, cy: int|
            in_b(w, h, cx, cy) && !open_at(pre.board@, w, cx, cy) && #[trigger] open_at(
                post.board@,
                w,
                cx,
                cy,
            ) ==> (cx == x && cy == y) || (pre.cell_at(x, y).adjacent_mine_count == 0 && in_closure(
                pre.board@,
                w,
                h,
                x,
                y,
                cx,
                cy,
            )))
        &&& post.is_clear == (pre.is_clear || all_safe_open(post.board@))
    }
}

/// What toggling the flag at `(x, y)` does to the whole game.
pub open spec fn flag_post(pre: Game, post: Game, x: int, y: int) -> bool {
    let w = pre.w as int;
    &&& post.w == pre.w
    &&& post.h == pre.h
    &&& post.mine_count == pre.mine_count
    &&& post.rng == pre.rng
    &&& post.is_over == pre.is_over
    &&& post.is_clear == pre.is_clear
    &&& post.requested_sounds@ == pre.requested_sounds@
    &&& if pre.cell_at(x, y).is_open {
        post == pre
    } else {
        post.board@ == pre.board@.update(idx(w, x, y), toggled_cell(pre.cell_at(x, y)))
    }
}

/// What one `update` call does: the whole command dispatch, including the
/// terminal guard. Well-formedness is carried along.
pub open spec fn step_post(pre: Game, post: Game, command: Command) -> bool {
    &&& command_in_bounds(pre, command)
    &&& (pre.inv() ==> post.inv())
    &&& if pre.is_over || pre.is_clear {
        post == pre
    } else {
        match command {
            Command::Noop => post == pre,
            Command::Open(x, y) => open_post(pre, post, x as int, y as int),
            Command::Flag(x, y) => flag_post(pre, post, x as int, y as int),
        }
    }
}

/// The command's coordinates, if any, lie on the grid.
pub open spec fn command_in_bounds(g: Game, command: Command) -> bool {
    match command {
        Command::Noop => true,
        Command::Open(x, y) => x < g.w && y < g.h,
        Command::Flag(x, y) => x < g.w && y < g.h,
    }
}

} // verus!

