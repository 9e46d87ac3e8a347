use minesweeper::board::{new_board, new_board_with_mines, Cell, CellContent, CellVis};
use minesweeper::codec::{deserialize, deserialize_status, serialize, serialize_status};
use minesweeper::engine::{apply, GameOutcome, GameStatus, Play, PlayKind};
use minesweeper::render::render;

#[test]
fn new_board_counts_mines_exactly() {
    let b = new_board(5, 4, 7, false, 12345).unwrap();
    let mut mines = 0;
    for y in 0..4 {
        for x in 0..5 {
            if let CellContent::Mine = b.cell(x, y).content {
                mines += 1;
            }
        }
    }
    assert_eq!(mines, 7);
}

#[test]
fn new_board_neighbor_counts_are_exact() {
    let b = new_board(6, 6, 9, false, 99).unwrap();
    for y in 0..6i64 {
        for x in 0..6i64 {
            let mut expect = 0u8;
            for dy in -1..=1i64 {
                for dx in -1..=1i64 {
                    if dx == 0 && dy == 0 {
                        continue;
                    }
                    let (nx, ny) = (x + dx, y + dy);
                    if nx >= 0 && nx < 6 && ny >= 0 && ny < 6 {
                        if let CellContent::Mine = b.cell(nx as usize, ny as usize).content {
                            expect += 1;
                        }
                    }
                }
            }
            if let CellContent::Safe(n) = b.cell(x as usize, y as usize).content {
                assert_eq!(n, expect);
            }
        }
    }
}

#[test]
fn new_board_rejects_bad_inputs() {
    assert!(new_board(0, 3, 0, false, 1).is_err());
    assert!(new_board(3, 0, 0, false, 1).is_err());
    assert!(new_board(2, 2, 4, false, 1).is_err());
    assert!(new_board(2, 2, 0, false, 1).is_ok());
}

#[test]
fn toggle_flag_twice_restores_closed() {
    let mut b = new_board(3, 3, 1, false, 5).unwrap();
    assert!(matches!(b.cell(1, 2).vis, CellVis::Closed));
    b.toggle_flag(1, 2);
    assert!(matches!(b.cell(1, 2).vis, CellVis::Flagged));
    b.toggle_flag(1, 2);
    assert!(matches!(b.cell(1, 2).vis, CellVis::Closed));
}

#[test]
fn opening_flagged_cell_is_noop() {
    let mines = vec![4usize];
    let mut b = new_board_with_mines(3, 3, &mines, 0).unwrap();
    let mut status = GameStatus::InProgress;
    apply(
        &mut b,
        &mut status,
        Play { x: 1, y: 1, action: PlayKind::Flag },
    )
    .unwrap();
    let out = apply(
        &mut b,
        &mut status,
        Play { x: 1, y: 1, action: PlayKind::Open },
    )
    .unwrap();
    assert_eq!(out, GameOutcome::Continuing);
    assert!(matches!(b.cell(1, 1).vis, CellVis::Flagged));
    for y in 0..3 {
        for x in 0..3 {
            if !(x == 1 && y == 1) {
                assert!(matches!(b.cell(x, y).vis, CellVis::Closed));
            }
        }
    }
}

#[test]
fn flood_fill_opens_exact_component() {
    // 4x2 board, one mine in the right column: the left zero-region
    // opens together with its numbered boundary; the mine stays closed.
    let mines = vec![3usize];
    let mut b = new_board_with_mines(4, 2, &mines, 0).unwrap();
    let opened = b.open(0, 0);
    // Cells (0,0),(1,0),(0,1),(1,1) are zero cells; (2,0),(2,1) carry
    // the count 1 and stop the cascade; the mine column stays closed.
    assert_eq!(opened.len(), 6);
    assert!(matches!(b.cell(3, 0).vis, CellVis::Closed));
    assert!(matches!(b.cell(3, 1).vis, CellVis::Closed));
    for (x, y) in [(0, 0), (1, 0), (2, 0), (0, 1), (1, 1), (2, 1)] {
        assert!(matches!(b.cell(x, y).vis, CellVis::Opened), "({x},{y})");
    }
}

#[test]
fn one_by_one_board_wins_immediately() {
    let mut b = new_board(1, 1, 0, false, 0).unwrap();
    let mut status = GameStatus::InProgress;
    let out = apply(
        &mut b,
        &mut status,
        Play { x: 0, y: 0, action: PlayKind::Open },
    )
    .unwrap();
    assert_eq!(out, GameOutcome::Won);
    assert_eq!(status, GameStatus::Won);
}

#[test]
fn numbered_cell_opens_without_cascade() {
    let mines = vec![4usize]; // (1,1) on a 3x3 grid
    let mut b = new_board_with_mines(3, 3, &mines, 0).unwrap();
    match b.cell(0, 0).content {
        CellContent::Safe(n) => assert_eq!(n, 1),
        CellContent::Mine => panic!("corner must be safe"),
    }
    let mut status = GameStatus::InProgress;
    let out = apply(
        &mut b,
        &mut status,
        Play { x: 0, y: 0, action: PlayKind::Open },
    )
    .unwrap();
    assert_eq!(out, GameOutcome::Continuing);
    assert!(matches!(b.cell(0, 0).vis, CellVis::Opened));
    for y in 0..3 {
        for x in 0..3 {
            if !(x == 0 && y == 0) {
                assert!(matches!(b.cell(x, y).vis, CellVis::Closed));
            }
        }
    }
}

#[test]
fn first_move_is_always_safe() {
    for seed in 0..20u64 {
        let mut b = new_board(2, 2, 1, true, seed).unwrap();
        let mut status = GameStatus::InProgress;
        let out = apply(
            &mut b,
            &mut status,
            Play { x: 0, y: 0, action: PlayKind::Open },
        )
        .unwrap();
        assert!(!matches!(out, GameOutcome::Lost(_, _)), "seed {seed}");
        assert!(!matches!(b.cell(0, 0).content, CellContent::Mine));
        let mut mines = 0;
        for y in 0..2 {
            for x in 0..2 {
                if matches!(b.cell(x, y).content, CellContent::Mine) {
                    mines += 1;
                }
            }
        }
        assert_eq!(mines, 1);
    }
}

#[test]
fn opening_a_mine_loses_and_reveals_all_mines() {
    let mines = vec![0usize, 8usize];
    let mut b = new_board_with_mines(3, 3, &mines, 0).unwrap();
    let mut status = GameStatus::InProgress;
    let out = apply(
        &mut b,
        &mut status,
        Play { x: 0, y: 0, action: PlayKind::Open },
    )
    .unwrap();
    assert_eq!(out, GameOutcome::Lost(0, 0));
    assert_eq!(status, GameStatus::Lost);
    assert!(matches!(b.cell(0, 0).vis, CellVis::Opened));
    assert!(matches!(b.cell(2, 2).vis, CellVis::Opened));
    // A finished game accepts no further plays.
    let err = apply(
        &mut b,
        &mut status,
        Play { x: 1, y: 1, action: PlayKind::Open },
    );
    assert!(err.is_err());
}

#[test]
fn out_of_bounds_play_is_rejected_without_change() {
    let mut b = new_board(2, 2, 1, false, 3).unwrap();
    let before = serialize(&b);
    let mut status = GameStatus::InProgress;
    let r = apply(
        &mut b,
        &mut status,
        Play { x: 2, y: 0, action: PlayKind::Open },
    );
    assert!(r.is_err());
    assert_eq!(serialize(&b), before);
    assert_eq!(status, GameStatus::InProgress);
}

#[test]
fn win_ignores_flags_on_mines() {
    let mines = vec![0usize];
    let mut b = new_board_with_mines(2, 2, &mines, 0).unwrap();
    let mut status = GameStatus::InProgress;
    // No flag anywhere: open all three safe cells; the last one wins.
    for (x, y) in [(1usize, 0usize), (0, 1)] {
        let out = apply(&mut b, &mut status, Play { x, y, action: PlayKind::Open }).unwrap();
        assert_eq!(out, GameOutcome::Continuing);
    }
    let out = apply(
        &mut b,
        &mut status,
        Play { x: 1, y: 1, action: PlayKind::Open },
    )
    .unwrap();
    assert_eq!(out, GameOutcome::Won);
}

#[test]
fn snapshot_round_trips_exactly() {
    let mines = vec![2usize, 5];
    let mut b = new_board_with_mines(3, 2, &mines, 77).unwrap();
    b.toggle_flag(2, 0);
    let _ = b.open(0, 0);
    let bytes = serialize(&b);
    let b2 = deserialize(&bytes).unwrap();
    assert_eq!(b2.width, b.width);
    assert_eq!(b2.height, b.height);
    for y in 0..2 {
        for x in 0..3 {
            let c1: Cell = b.cell(x, y);
            let c2: Cell = b2.cell(x, y);
            assert_eq!(c1.vis, c2.vis);
            assert_eq!(c1.content, c2.content);
        }
    }
    assert_eq!(serialize(&b2), bytes);
}

#[test]
fn corrupt_snapshots_are_rejected() {
    assert!(deserialize(&vec![]).is_err());
    assert!(deserialize(&vec![0u8; 20]).is_err());
    let b = new_board(2, 2, 1, false, 0).unwrap();
    let mut bytes = serialize(&b);
    bytes.pop(); // truncated
    assert!(deserialize(&bytes).is_err());
    let mut bytes2 = serialize(&b);
    let last = bytes2.len() - 1;
    bytes2[last] = 255; // stray cell byte
    assert!(deserialize(&bytes2).is_err());
    // A wrong neighbor count is caught, not believed.
    let mines = vec![0usize];
    let b3 = new_board_with_mines(2, 2, &mines, 0).unwrap();
    let mut bytes3 = serialize(&b3);
    // cell (1,1) holds Safe(1); forge it to Safe(3)
    bytes3[33 + 3] = 3;
    assert!(deserialize(&bytes3).is_err());
}

#[test]
fn status_byte_round_trips() {
    for s in [GameStatus::InProgress, GameStatus::Won, GameStatus::Lost] {
        let byte = serialize_status(&s);
        assert_eq!(deserialize_status(byte).unwrap(), s);
    }
    assert!(deserialize_status(9).is_err());
}

#[test]
fn render_draws_the_fixed_glyphs() {
    let mines = vec![0usize];
    let mut b = new_board_with_mines(2, 2, &mines, 0).unwrap();
    b.toggle_flag(0, 0);
    let _ = b.open(1, 1);
    let text = String::from_utf8(render(&b)).unwrap();
    assert_eq!(text, "[F][ ]\n[ ][1]\n");
}

#[test]
fn render_shows_opened_mine_and_blanks() {
    let mines = vec![0usize, 2];
    let mut b = new_board_with_mines(3, 3, &mines, 0).unwrap();
    let mut status = GameStatus::InProgress;
    let out = apply(
        &mut b,
        &mut status,
        Play { x: 2, y: 2, action: PlayKind::Open },
    )
    .unwrap();
    assert_eq!(out, GameOutcome::Continuing);
    let out = apply(
        &mut b,
        &mut status,
        Play { x: 0, y: 0, action: PlayKind::Open },
    )
    .unwrap();
    assert_eq!(out, GameOutcome::Lost(0, 0));
    let text = String::from_utf8(render(&b)).unwrap();
    assert_eq!(text, "{+}[ ]{+}\n[1][2][1]\n         \n");
}
