//! Session-level laws: what holds across whole sequences of commands.

use vstd::prelude::*;

use crate::grid::{
    all_safe_open, idx, in_b, in_closure, lemma_closure_of_reach, lemma_closure_open,
    lemma_closure_same, lemma_idx_bounds, lemma_reach_self, open_at, zero_cell,
};
use crate::model::{cells_frame, step_post, Command, Game};

verus! {

/// The game moves from `pre` to `post` under the given command sequence,
/// one `update` call per command.
pub open spec fn steps(pre: Game, post: Game, cmds: Seq<Command>) -> bool
    decreases cmds.len(),
{
    if cmds.len() == 0 {
        post == pre
    } else {
        exists|mid: Game|
            #[trigger] step_post(pre, mid, cmds[0]) && steps(mid, post, cmds.drop_first())
    }
}

/// One command never closes an open cell and never resizes the grid.
proof fn lemma_step_keeps_open(pre: Game, post: Game, command: Command, x: int, y: int)
    requires
        pre.inv(),
        step_post(pre, post, command),
        in_b(pre.w as int, pre.h as int, x, y),
        pre.cell_at(x, y).is_open,
    ensures
        post.w == pre.w,
        post.h == pre.h,
        post.cell_at(x, y).is_open,
{
    let wi = pre.w as int;
    let hi = pre.h as int;
    lemma_idx_bounds(wi, hi, x, y);
    if !(pre.is_over || pre.is_clear) {
        match command {
            Command::Open(x0, y0) => {
                lemma_idx_bounds(wi, hi, x0 as int, y0 as int);
                if !pre.cell_at(x0 as int, y0 as int).is_open {
                    if pre.cell_at(x0 as int, y0 as int).is_mine {
                        if idx(wi, x, y) == idx(wi, x0 as int, y0 as int) {
                            assert(post.cell_at(x, y).is_open);
                        } else {
                            assert(post.board@[idx(wi, x, y)] == pre.board@[idx(wi, x, y)]);
                        }
                    } else {
                        assert(cells_frame(pre.board@, post.board@));
                        assert(post.board@[idx(wi, x, y)].is_open);
                    }
                }
            },
            Command::Flag(x0, y0) => {
                lemma_idx_bounds(wi, hi, x0 as int, y0 as int);
                if !pre.cell_at(x0 as int, y0 as int).is_open {
                    if idx(wi, x, y) == idx(wi, x0 as int, y0 as int) {
                        assert(post.cell_at(x, y).is_open);
                    } else {
                        assert(post.board@[idx(wi, x, y)] == pre.board@[idx(wi, x, y)]);
                    }
                }
            },
            Command::Noop => {},
        }
    }
}

/// Monotonic open: once a cell is open, no sequence of further commands
/// makes it non-open.
pub proof fn lemma_monotonic_open(pre: Game, post: Game, cmds: Seq<Command>, x: int, y: int)
    requires
        pre.inv(),
        steps(pre, post, cmds),
        in_b(pre.w as int, pre.h as int, x, y),
        pre.cell_at(x, y).is_open,
    ensures
        post.w == pre.w,
        post.h == pre.h,
        post.cell_at(x, y).is_open,
    decreases cmds.len(),
{
    if cmds.len() > 0 {
        let mid = choose|mid: Game|
            #[trigger] step_post(pre, mid, cmds[0]) && steps(mid, post, cmds.drop_first());
        lemma_step_keeps_open(pre, mid, cmds[0], x, y);
        lemma_monotonic_open(mid, post, cmds.drop_first(), x, y);
    }
}

/// Terminal idempotence: once the game is over or cleared, any sequence
/// of further commands leaves it exactly as it is.
pub proof fn lemma_terminal_idempotent(pre: Game, post: Game, cmds: Seq<Command>)
    requires
        steps(pre, post, cmds),
        pre.is_over || pre.is_clear,
    ensures
        post == pre,
    decreases cmds.len(),
{
    if cmds.len() > 0 {
        let mid = choose|mid: Game|
            #[trigger] step_post(pre, mid, cmds[0]) && steps(mid, post, cmds.drop_first());
        assert(mid == pre);
        lemma_terminal_idempotent(mid, post, cmds.drop_first());
    }
}

/// Win exactness: a reveal of a closed, mine-free cell from a live state
/// sets `is_clear` exactly when it leaves every mine-free cell open.
pub proof fn lemma_win_exact(pre: Game, post: Game, x: usize, y: usize)
    requires
        !pre.is_over && !pre.is_clear,
        step_post(pre, post, Command::Open(x, y)),
        !pre.cell_at(x as int, y as int).is_open,
        !pre.cell_at(x as int, y as int).is_mine,
    ensures
        post.is_clear <==> all_safe_open(post.board@),
{
}

/// Flood-fill boundary: opening a zero-count cell from a live,
/// well-formed state opens its entire connected zero-count region plus
/// the border cells adjacent to that region, and opens nothing else.
pub proof fn lemma_flood_fill_boundary(pre: Game, post: Game, x: usize, y: usize)
    requires
        pre.inv(),
        !pre.is_over && !pre.is_clear,
        step_post(pre, post, Command::Open(x, y)),
        !pre.cell_at(x as int, y as int).is_open,
        zero_cell(pre.board@, pre.w as int, pre.h as int, x as int, y as int),
    ensures
        forall|cx: int, cy: int|
            #[trigger] in_closure(pre.board@, pre.w as int, pre.h as int, x as int, y as int, cx, cy)
                ==> open_at(post.board@, pre.w as int, cx, cy),
        forall|cx: int, cy: int|
            in_b(pre.w as int, pre.h as int, cx, cy) && !open_at(pre.board@, pre.w as int, cx, cy)
                && #[trigger] open_at(post.board@, pre.w as int, cx, cy) ==> in_closure(
                pre.board@,
                pre.w as int,
                pre.h as int,
                x as int,
                y as int,
                cx,
                cy,
            ),
{
    let wi = pre.w as int;
    let hi = pre.h as int;
    let xi = x as int;
    let yi = y as int;
    lemma_idx_bounds(wi, hi, xi, yi);
    // The start cell belongs to its own region, hence to the closure.
    lemma_reach_self(pre.board@, wi, hi, xi, yi);
    lemma_closure_of_reach(pre.board@, wi, hi, xi, yi, xi, yi);
    // Nothing outside the closure was opened.
    assert forall|cx: int, cy: int|
        in_b(wi, hi, cx, cy) && !open_at(pre.board@, wi, cx, cy) && #[trigger] open_at(
            post.board@,
            wi,
            cx,
            cy,
        ) implies in_closure(pre.board@, wi, hi, xi, yi, cx, cy) by {
        lemma_idx_bounds(wi, hi, cx, cy);
    }
    // Everything in the closure is now open: the step preserves
    // well-formedness, so every open zero cell has open neighbors, and an
    // induction along zero paths from the open start covers the region.
    assert(post.inv());
    assert(open_at(post.board@, wi, xi, yi));
    assert forall|cx: int, cy: int|
        #[trigger] in_closure(pre.board@, wi, hi, xi, yi, cx, cy) implies open_at(
        post.board@,
        wi,
        cx,
        cy,
    ) by {
        lemma_closure_same(pre.board@, post.board@, wi, hi, xi, yi, cx, cy);
        lemma_closure_open(post.board@, wi, hi, xi, yi, cx, cy);
    }
}

} // verus!
