use gomoku::board::{Board, Cell, GameResult, MoveError, MAP_SIZE};
use gomoku::gamestate::{GameState, PlayerInt};

fn sorted(mut v: Vec<(usize, usize)>) -> Vec<(usize, usize)> {
    v.sort();
    v
}

#[test]
fn cell_default_and_opponent() {
    assert_eq!(Cell::default(), Cell::Empty);
    assert_eq!(Cell::Black.opponent(), Cell::White);
    assert_eq!(Cell::White.opponent(), Cell::Black);
    assert_eq!(Cell::Empty.opponent(), Cell::Empty);
}

#[test]
fn game_result_or_precedence() {
    let win = GameResult::BlackWon(vec![(0, 0), (0, 1), (0, 2), (0, 3), (0, 4)]);
    assert_eq!(GameResult::NotFinished.or(GameResult::Draw), GameResult::NotFinished);
    assert_eq!(GameResult::NotFinished.or(win.clone()), win.clone());
    assert_eq!(GameResult::Draw.or(GameResult::NotFinished), GameResult::NotFinished);
    assert_eq!(GameResult::Draw.or(win.clone()), win.clone());
    assert_eq!(win.clone().or(GameResult::Draw), win.clone());
    assert_eq!(win.clone().or(GameResult::NotFinished), win);
    assert_eq!(GameResult::Draw.or(GameResult::Draw), GameResult::Draw);
}

#[test]
fn game_result_win_text_and_over() {
    let win = GameResult::WhiteWon(vec![(0, 0), (0, 1), (0, 2), (0, 3), (0, 4)]);
    assert_eq!(win.win_text(), "White won");
    let win = GameResult::BlackWon(vec![(0, 0), (0, 1), (0, 2), (0, 3), (0, 4)]);
    assert_eq!(win.win_text(), "Black won");
    assert_eq!(GameResult::Draw.win_text(), "It's a draw");
    assert_eq!(GameResult::NotFinished.win_text(), "");
    assert!(win.over());
    assert!(GameResult::Draw.over());
    assert!(!GameResult::NotFinished.over());
}

#[test]
fn fresh_board_is_empty() {
    let b = Board::default();
    for x in 0..MAP_SIZE {
        for y in 0..MAP_SIZE {
            assert_eq!(b.cell(x, y), Cell::Empty);
        }
    }
    assert!(b.moves().is_empty());
    assert!(!b.can_undo());
    assert!(!b.can_redo());
    assert_eq!(b.result(), GameResult::NotFinished);
}

#[test]
fn next_color_alternates_from_black() {
    let mut b = Board::default();
    for k in 0..10usize {
        let expected = if k % 2 == 0 { Cell::Black } else { Cell::White };
        assert_eq!(b.next_color(), expected);
        b.put(k, 0);
    }
}

#[test]
fn put_writes_stone_and_records_move() {
    let mut b = Board::default();
    let r = b.put(7, 7);
    assert_eq!(r, GameResult::NotFinished);
    assert_eq!(b.cell(7, 7), Cell::Black);
    assert_eq!(b.moves(), &vec![(7, 7)]);
    let r = b.put(8, 8);
    assert_eq!(r, GameResult::NotFinished);
    assert_eq!(b.cell(8, 8), Cell::White);
    assert_eq!(b.moves(), &vec![(7, 7), (8, 8)]);
}

#[test]
fn occupancy_matches_moves() {
    let mut b = Board::default();
    let plays = [(3, 4), (10, 2), (0, 14), (14, 0), (7, 7)];
    for &(x, y) in plays.iter() {
        b.put(x, y);
    }
    for x in 0..MAP_SIZE {
        for y in 0..MAP_SIZE {
            let played = plays.iter().any(|&(px, py)| (px, py) == (x, y));
            assert_eq!(b.cell(x, y) != Cell::Empty, played);
        }
    }
}

#[test]
fn undo_on_fresh_board_is_noop() {
    let mut b = Board::default();
    assert!(!b.can_undo());
    b.undo();
    assert!(!b.can_undo());
    assert!(!b.can_redo());
    assert!(b.moves().is_empty());
    assert_eq!(b.cell(0, 0), Cell::Empty);
}

#[test]
fn undo_redo_restores_state() {
    let mut b = Board::default();
    b.put(7, 7);
    b.put(8, 8);
    b.put(6, 6);
    let moves_before = b.moves().clone();
    let cells_before: Vec<Cell> =
        (0..MAP_SIZE * MAP_SIZE).map(|i| b.cell(i / MAP_SIZE, i % MAP_SIZE)).collect();

    b.undo();
    assert_eq!(b.cell(6, 6), Cell::Empty);
    assert_eq!(b.moves().len(), 2);
    assert!(b.can_redo());
    assert_eq!(b.redo_step(), Some((6, 6)));

    let r = b.redo();
    assert_eq!(r, GameResult::NotFinished);
    assert_eq!(b.moves(), &moves_before);
    let cells_after: Vec<Cell> =
        (0..MAP_SIZE * MAP_SIZE).map(|i| b.cell(i / MAP_SIZE, i % MAP_SIZE)).collect();
    assert_eq!(cells_before, cells_after);
    assert!(!b.can_redo());
}

#[test]
fn full_undo_then_full_redo_round_trips() {
    let mut b = Board::default();
    let plays = [(1, 1), (2, 2), (3, 3), (4, 4)];
    for &(x, y) in plays.iter() {
        b.put(x, y);
    }
    for _ in 0..plays.len() {
        b.undo();
    }
    assert!(b.moves().is_empty());
    assert!(b.can_redo());
    for _ in 0..plays.len() {
        b.redo();
    }
    assert!(!b.can_redo());
    assert_eq!(b.moves(), &plays.to_vec());
    assert_eq!(b.cell(1, 1), Cell::Black);
    assert_eq!(b.cell(2, 2), Cell::White);
    assert_eq!(b.cell(3, 3), Cell::Black);
    assert_eq!(b.cell(4, 4), Cell::White);
}

#[test]
fn new_put_discards_redo_stack() {
    let mut b = Board::default();
    b.put(1, 1);
    b.put(2, 2);
    b.put(3, 3);
    b.undo();
    b.undo();
    assert!(b.can_redo());
    b.put(5, 5);
    assert!(!b.can_redo());
    assert_eq!(b.redo_step(), None);
}

#[test]
fn redo_keeps_earlier_undos_available() {
    let mut b = Board::default();
    b.put(1, 1);
    b.put(2, 2);
    b.undo();
    b.undo();
    assert_eq!(b.redo_step(), Some((1, 1)));
    b.redo();
    assert!(b.can_redo());
    assert_eq!(b.redo_step(), Some((2, 2)));
    b.redo();
    assert!(!b.can_redo());
}

#[test]
fn try_put_rejects_bad_cells_and_keeps_board() {
    let mut b = Board::default();
    assert_eq!(b.try_put(7, 7), Ok(GameResult::NotFinished));
    assert_eq!(b.try_put(7, 7), Err(MoveError::InvalidMove));
    assert_eq!(b.try_put(15, 0), Err(MoveError::InvalidMove));
    assert_eq!(b.try_put(0, 15), Err(MoveError::InvalidMove));
    assert_eq!(b.moves(), &vec![(7, 7)]);
    assert_eq!(b.cell(7, 7), Cell::Black);
    assert_eq!(b.next_color(), Cell::White);
}

#[test]
fn try_redo_reports_empty_buffer() {
    let mut b = Board::default();
    assert_eq!(b.try_redo(), Err(MoveError::NoRedoAvailable));
    b.put(3, 3);
    assert_eq!(b.try_redo(), Err(MoveError::NoRedoAvailable));
    b.undo();
    assert_eq!(b.try_redo(), Ok(GameResult::NotFinished));
    assert_eq!(b.cell(3, 3), Cell::Black);
    assert_eq!(b.try_redo(), Err(MoveError::NoRedoAvailable));
    assert_eq!(b.moves(), &vec![(3, 3)]);
}

#[test]
fn win_in_row() {
    let mut b = Board::default();
    // Black builds a row; White answers far away.
    let black = [(3, 7), (4, 7), (5, 7), (6, 7)];
    let white = [(0, 0), (0, 1), (0, 2), (0, 3)];
    for i in 0..4 {
        assert_eq!(b.put(black[i].0, black[i].1), GameResult::NotFinished);
        assert_eq!(b.put(white[i].0, white[i].1), GameResult::NotFinished);
    }
    let r = b.put(7, 7);
    match r {
        GameResult::BlackWon(line) => {
            assert_eq!(
                sorted(line),
                vec![(3, 7), (4, 7), (5, 7), (6, 7), (7, 7)]
            );
        },
        other => panic!("expected a black win, got {:?}", other),
    }
}

#[test]
fn win_in_column() {
    let mut b = Board::default();
    let black = [(2, 3), (2, 4), (2, 5), (2, 6)];
    let white = [(9, 0), (10, 0), (11, 0), (12, 0)];
    for i in 0..4 {
        b.put(black[i].0, black[i].1);
        b.put(white[i].0, white[i].1);
    }
    let r = b.put(2, 7);
    match r {
        GameResult::BlackWon(line) => {
            assert_eq!(
                sorted(line),
                vec![(2, 3), (2, 4), (2, 5), (2, 6), (2, 7)]
            );
        },
        other => panic!("expected a black win, got {:?}", other),
    }
}

#[test]
fn win_in_down_right_diagonal() {
    let mut b = Board::default();
    let black = [(4, 4), (5, 5), (6, 6), (7, 7)];
    let white = [(0, 14), (1, 14), (2, 14), (3, 14)];
    for i in 0..4 {
        b.put(black[i].0, black[i].1);
        b.put(white[i].0, white[i].1);
    }
    let r = b.put(8, 8);
    match r {
        GameResult::BlackWon(line) => {
            assert_eq!(
                sorted(line),
                vec![(4, 4), (5, 5), (6, 6), (7, 7), (8, 8)]
            );
        },
        other => panic!("expected a black win, got {:?}", other),
    }
}

#[test]
fn win_in_down_left_diagonal_by_white() {
    let mut b = Board::default();
    // Black scatters; White builds the down-left diagonal through (10, 4).
    let black = [(0, 0), (0, 1), (0, 2), (0, 3), (0, 5)];
    let white = [(10, 4), (11, 3), (12, 2), (13, 1)];
    for i in 0..4 {
        b.put(black[i].0, black[i].1);
        b.put(white[i].0, white[i].1);
    }
    b.put(black[4].0, black[4].1);
    let r = b.put(14, 0);
    match r {
        GameResult::WhiteWon(line) => {
            assert_eq!(
                sorted(line),
                vec![(10, 4), (11, 3), (12, 2), (13, 1), (14, 0)]
            );
        },
        other => panic!("expected a white win, got {:?}", other),
    }
}

#[test]
fn five_in_a_row_scenario_center_and_edge() {
    let mut b = Board::default();
    b.put(7, 7);
    b.put(0, 0);
    b.put(7, 8);
    b.put(0, 1);
    b.put(7, 9);
    b.put(0, 2);
    b.put(7, 10);
    b.put(0, 3);
    let r = b.put(7, 11);
    match r {
        GameResult::BlackWon(line) => {
            assert_eq!(
                sorted(line),
                vec![(7, 7), (7, 8), (7, 9), (7, 10), (7, 11)]
            );
        },
        other => panic!("expected a black win, got {:?}", other),
    }
}

#[test]
fn six_run_still_reports_win() {
    let mut b = Board::default();
    // Black prepares 0,1,2 and 4,5 in column 0 of row x=0, then closes the gap.
    let black = [(0, 0), (0, 1), (0, 2), (0, 4), (0, 5)];
    let white = [(9, 9), (10, 9), (11, 9), (12, 9), (13, 10)];
    for i in 0..5 {
        assert_eq!(b.put(black[i].0, black[i].1), GameResult::NotFinished);
        assert_eq!(b.put(white[i].0, white[i].1), GameResult::NotFinished);
    }
    let r = b.put(0, 3);
    match r {
        GameResult::BlackWon(line) => {
            assert_eq!(line.len(), 5);
            for &(x, y) in line.iter() {
                assert_eq!(b.cell(x, y), Cell::Black);
                assert_eq!(x, 0);
                assert!(y <= 5);
            }
        },
        other => panic!("expected a black win, got {:?}", other),
    }
}

/// Target coloring with no five-in-a-row anywhere: blocks of two along rows,
/// shifted so diagonals alternate in pairs as well.
fn draw_color(x: usize, y: usize) -> Cell {
    if (x / 2 + y) % 2 == 0 {
        Cell::Black
    } else {
        Cell::White
    }
}

#[test]
fn full_board_without_run_is_draw() {
    let mut blacks = Vec::new();
    let mut whites = Vec::new();
    for x in 0..MAP_SIZE {
        for y in 0..MAP_SIZE {
            if draw_color(x, y) == Cell::Black {
                blacks.push((x, y));
            } else {
                whites.push((x, y));
            }
        }
    }
    assert_eq!(blacks.len(), 113);
    assert_eq!(whites.len(), 112);
    let mut b = Board::default();
    for i in 0..112 {
        assert_eq!(b.put(blacks[i].0, blacks[i].1), GameResult::NotFinished);
        assert_eq!(b.put(whites[i].0, whites[i].1), GameResult::NotFinished);
    }
    let r = b.put(blacks[112].0, blacks[112].1);
    assert_eq!(r, GameResult::Draw);
    for x in 0..MAP_SIZE {
        for y in 0..MAP_SIZE {
            assert_eq!(b.cell(x, y), draw_color(x, y));
        }
    }
}

#[test]
fn move_to_id_map_lists_ply_numbers() {
    let mut b = Board::default();
    b.put(7, 7);
    b.put(8, 8);
    b.put(9, 9);
    let map = b.move_to_id_map();
    assert_eq!(map, vec![((7, 7), 1), ((8, 8), 2), ((9, 9), 3)]);
}

#[test]
fn human_comes_follows_turn_order() {
    let mut b = Board::default();
    assert!(b.human_comes(PlayerInt::Human, PlayerInt::AI));
    assert!(!b.human_comes(PlayerInt::AI, PlayerInt::Human));
    b.put(7, 7);
    assert!(!b.human_comes(PlayerInt::Human, PlayerInt::AI));
    assert!(b.human_comes(PlayerInt::AI, PlayerInt::Human));
}

#[test]
fn line_iterator_walks_a_row() {
    let mut b = Board::default();
    b.put(0, 3);
    b.put(1, 3);
    let mut it = b.line((0, 3), (1, 0));
    let mut cells = Vec::new();
    while let Some(c) = it.next() {
        cells.push(c);
    }
    assert_eq!(cells.len(), MAP_SIZE);
    assert_eq!(cells[0], Cell::Black);
    assert_eq!(cells[1], Cell::White);
    assert_eq!(cells[2], Cell::Empty);
}

#[test]
fn line_iterator_last5_reports_walked_positions() {
    let b = Board::default();
    let mut it = b.line((0, 0), (1, 1));
    for _ in 0..5 {
        it.next();
    }
    let l5 = it.last5();
    assert_eq!(sorted(l5), vec![(0, 0), (1, 1), (2, 2), (3, 3), (4, 4)]);
}

#[test]
fn player_int_to_string() {
    assert_eq!(PlayerInt::Human.to_string(), "Human");
    assert_eq!(PlayerInt::AI.to_string(), "AI");
}

#[test]
fn game_state_holds_result() {
    let s = GameState::Finished(GameResult::Draw);
    assert_eq!(s, GameState::Finished(GameResult::Draw));
    assert_ne!(s, GameState::MainMenu);
    assert_ne!(GameState::Playing, GameState::LoadSaved);
}
