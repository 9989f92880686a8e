use minesweeper::model::{Cell, Command, Game, Sound, BOARD_H, BOARD_W, BOMB_COUNT};

fn cell(g: &Game, x: usize, y: usize) -> Cell {
    g.board[y * g.w + x]
}

fn mine_positions(g: &Game) -> Vec<(usize, usize)> {
    let mut out = Vec::new();
    for y in 0..g.h {
        for x in 0..g.w {
            if cell(g, x, y).is_mine {
                out.push((x, y));
            }
        }
    }
    out
}

#[test]
fn new_default_board() {
    let g = Game::new();
    assert_eq!(g.w, BOARD_W);
    assert_eq!(g.h, BOARD_H);
    assert_eq!(g.mine_count, BOMB_COUNT);
    assert_eq!(g.board.len(), BOARD_W * BOARD_H);
    assert_eq!(mine_positions(&g).len(), BOMB_COUNT);
    assert!(!g.is_over);
    assert!(!g.is_clear);
    assert!(g.requested_sounds.is_empty());
    for y in 0..g.h {
        for x in 0..g.w {
            assert!(!cell(&g, x, y).is_open);
            assert!(!cell(&g, x, y).is_flagged);
        }
    }
}

#[test]
fn same_seed_same_board() {
    let a = Game::new();
    let b = Game::new();
    assert_eq!(mine_positions(&a), mine_positions(&b));
}

#[test]
fn adjacency_matches_brute_force_recount() {
    let g = Game::new();
    for y in 0..g.h {
        for x in 0..g.w {
            let mut recount = 0;
            for dy in -1i64..=1 {
                for dx in -1i64..=1 {
                    if dx == 0 && dy == 0 {
                        continue;
                    }
                    let nx = x as i64 + dx;
                    let ny = y as i64 + dy;
                    if nx < 0 || nx >= g.w as i64 || ny < 0 || ny >= g.h as i64 {
                        continue;
                    }
                    if cell(&g, nx as usize, ny as usize).is_mine {
                        recount += 1;
                    }
                }
            }
            assert_eq!(cell(&g, x, y).adjacent_mine_count, recount);
            assert_eq!(g.count_bombs(x, y), recount);
        }
    }
}

#[test]
fn with_mines_places_exactly_the_given_mines() {
    let g = Game::with_mines(3, 3, &vec![(2, 2)]).unwrap();
    for y in 0..3 {
        for x in 0..3 {
            assert_eq!(cell(&g, x, y).is_mine, (x, y) == (2, 2));
        }
    }
    assert_eq!(g.mine_count, 1);
    assert_eq!(cell(&g, 1, 1).adjacent_mine_count, 1);
    assert_eq!(cell(&g, 2, 1).adjacent_mine_count, 1);
    assert_eq!(cell(&g, 1, 2).adjacent_mine_count, 1);
    assert_eq!(cell(&g, 0, 0).adjacent_mine_count, 0);
    assert_eq!(cell(&g, 2, 0).adjacent_mine_count, 0);
    assert_eq!(cell(&g, 0, 2).adjacent_mine_count, 0);
}

#[test]
fn opening_zero_cell_floods_region_and_border() {
    // One mine in the corner: every other cell is either in the connected
    // zero region of (0,0) or on its numbered border, so one reveal opens
    // all eight safe cells and wins the game.
    let mut g = Game::with_mines(3, 3, &vec![(2, 2)]).unwrap();
    g.update(Command::Open(0, 0));
    for y in 0..3 {
        for x in 0..3 {
            assert_eq!(cell(&g, x, y).is_open, (x, y) != (2, 2));
        }
    }
    assert!(!g.is_over);
    assert!(g.is_clear);
    assert!(g.requested_sounds.is_empty());
}

#[test]
fn flood_stops_at_numbered_border() {
    // 5x1 strip with the mine in the middle: the cascade from the left
    // end opens the zero cell and its numbered neighbor, nothing beyond.
    let mut g = Game::with_mines(5, 1, &vec![(2, 0)]).unwrap();
    g.update(Command::Open(0, 0));
    assert!(cell(&g, 0, 0).is_open);
    assert!(cell(&g, 1, 0).is_open);
    assert!(!cell(&g, 2, 0).is_open);
    assert!(!cell(&g, 3, 0).is_open);
    assert!(!cell(&g, 4, 0).is_open);
    assert!(!g.is_over);
    assert!(!g.is_clear);
}

#[test]
fn opening_numbered_cell_opens_only_it() {
    let mut g = Game::with_mines(3, 3, &vec![(2, 2)]).unwrap();
    g.update(Command::Open(1, 1));
    for y in 0..3 {
        for x in 0..3 {
            assert_eq!(cell(&g, x, y).is_open, (x, y) == (1, 1));
        }
    }
    assert!(!g.is_over);
    assert!(!g.is_clear);
}

#[test]
fn opening_the_mine_loses_and_requests_one_crash() {
    let mut g = Game::with_mines(3, 3, &vec![(2, 2)]).unwrap();
    g.update(Command::Open(2, 2));
    for y in 0..3 {
        for x in 0..3 {
            assert_eq!(cell(&g, x, y).is_open, (x, y) == (2, 2));
        }
    }
    assert!(g.is_over);
    assert!(!g.is_clear);
    assert_eq!(g.requested_sounds, vec![Sound::Crash]);
}

#[test]
fn opening_a_mine_on_the_default_board_is_local() {
    // The same loss behavior on the randomly mined default board: find a
    // mine, open it, and check only that one cell changed.
    let mut g = Game::new();
    let before: Vec<Cell> = g.board.clone();
    let (mx, my) = mine_positions(&g)[0];
    g.update(Command::Open(mx, my));
    assert!(g.is_over);
    assert_eq!(g.requested_sounds, vec![Sound::Crash]);
    for y in 0..g.h {
        for x in 0..g.w {
            if (x, y) == (mx, my) {
                assert!(cell(&g, x, y).is_open);
            } else {
                assert_eq!(cell(&g, x, y), before[y * g.w + x]);
            }
        }
    }
}

#[test]
fn flagging_an_open_cell_is_a_noop() {
    let mut g = Game::with_mines(3, 3, &vec![(2, 2)]).unwrap();
    g.update(Command::Open(1, 1));
    let before: Vec<Cell> = g.board.clone();
    g.update(Command::Flag(1, 1));
    assert_eq!(g.board, before);
    assert!(!cell(&g, 1, 1).is_flagged);
}

#[test]
fn flagging_twice_returns_to_unflagged() {
    let mut g = Game::with_mines(3, 3, &vec![(2, 2)]).unwrap();
    assert!(!cell(&g, 0, 0).is_flagged);
    g.update(Command::Flag(0, 0));
    assert!(cell(&g, 0, 0).is_flagged);
    assert!(!cell(&g, 0, 0).is_open);
    g.update(Command::Flag(0, 0));
    assert!(!cell(&g, 0, 0).is_flagged);
}

#[test]
fn opening_clears_the_flag() {
    let mut g = Game::with_mines(3, 3, &vec![(2, 2)]).unwrap();
    g.update(Command::Flag(1, 1));
    assert!(cell(&g, 1, 1).is_flagged);
    g.update(Command::Open(1, 1));
    assert!(cell(&g, 1, 1).is_open);
    assert!(!cell(&g, 1, 1).is_flagged);
}

#[test]
fn commands_after_a_loss_change_nothing() {
    let mut g = Game::with_mines(3, 3, &vec![(2, 2)]).unwrap();
    g.update(Command::Open(2, 2));
    assert!(g.is_over);
    let board_before: Vec<Cell> = g.board.clone();
    let sounds_before = g.requested_sounds.clone();
    g.update(Command::Open(0, 0));
    g.update(Command::Flag(0, 1));
    g.update(Command::Noop);
    assert_eq!(g.board, board_before);
    assert_eq!(g.requested_sounds, sounds_before);
    assert!(g.is_over);
    assert!(!g.is_clear);
}

#[test]
fn commands_after_a_win_change_nothing() {
    let mut g = Game::with_mines(2, 1, &vec![(1, 0)]).unwrap();
    g.update(Command::Open(0, 0));
    assert!(g.is_clear);
    assert!(!g.is_over);
    let board_before: Vec<Cell> = g.board.clone();
    g.update(Command::Open(1, 0));
    g.update(Command::Flag(1, 0));
    assert_eq!(g.board, board_before);
    assert!(g.is_clear);
    assert!(!g.is_over);
}

#[test]
fn clear_becomes_true_exactly_when_all_safe_cells_open() {
    let mut g = Game::with_mines(3, 1, &vec![(2, 0)]).unwrap();
    g.update(Command::Open(0, 0));
    // (0,0) has count 0; its region is {(0,0)} plus border (1,0).
    assert!(cell(&g, 0, 0).is_open && cell(&g, 1, 0).is_open);
    assert!(g.is_clear);
}

#[test]
fn noop_command_changes_nothing() {
    let mut g = Game::with_mines(3, 3, &vec![(2, 2)]).unwrap();
    let before: Vec<Cell> = g.board.clone();
    g.update(Command::Noop);
    assert_eq!(g.board, before);
    assert!(!g.is_over && !g.is_clear);
}

#[test]
fn construction_rejects_degenerate_configurations() {
    assert!(Game::try_new(0, 5, 1, 0).is_err());
    assert!(Game::try_new(5, 0, 1, 0).is_err());
    assert!(Game::try_new(3, 3, 0, 0).is_err());
    assert!(Game::try_new(3, 3, 9, 0).is_err());
    assert!(Game::try_new(3, 3, 8, 0).is_ok());
    assert!(Game::with_mines(3, 3, &vec![(1, 1), (1, 1)]).is_err());
    assert!(Game::with_mines(3, 3, &vec![(3, 1)]).is_err());
    assert!(Game::with_mines(3, 3, &vec![]).is_err());
}

#[test]
fn custom_configuration_places_the_requested_mine_count() {
    let g = Game::try_new(7, 5, 12, 42).unwrap();
    assert_eq!(g.w, 7);
    assert_eq!(g.h, 5);
    assert_eq!(mine_positions(&g).len(), 12);
}

#[test]
fn clamp_bounds_values() {
    assert_eq!(minesweeper::model::clamp(0, 5, 10), 5);
    assert_eq!(minesweeper::model::clamp(0, -3, 10), 0);
    assert_eq!(minesweeper::model::clamp(0, 42, 10), 10);
    assert_eq!(minesweeper::model::clamp(1u64, 1u64, 1u64), 1u64);
}
