use gomoku::board::{Board, Cell, MAP_SIZE};
use gomoku::serial::ParseError;

#[test]
fn moves_string_of_fresh_board_is_empty_list() {
    let b = Board::default();
    assert_eq!(b.moves_string(), "[]");
}

#[test]
fn moves_string_lists_moves_in_play_order() {
    let mut b = Board::default();
    b.put(7, 7);
    b.put(0, 0);
    b.put(14, 14);
    assert_eq!(b.moves_string(), "[[7,7],[0,0],[14,14]]");
}

#[test]
fn moves_string_matches_serde_json_format() {
    let mut b = Board::default();
    b.put(7, 7);
    b.put(0, 0);
    b.put(12, 3);
    let expected = serde_json::to_string(&vec![(7usize, 7usize), (0, 0), (12, 3)]).unwrap();
    assert_eq!(b.moves_string(), expected);
}

#[test]
fn load_accepts_serde_json_output() {
    let moves: Vec<(usize, usize)> = vec![(1, 2), (3, 4), (5, 6)];
    let text = serde_json::to_string(&moves).unwrap();
    let mut b = Board::default();
    assert_eq!(b.load_from_string(&text), Ok(()));
    assert_eq!(b.moves(), &moves);
}

#[test]
fn save_then_load_reproduces_cells() {
    let mut b = Board::default();
    for &(x, y) in [(7, 7), (8, 8), (7, 8), (9, 9), (0, 14)].iter() {
        b.put(x, y);
    }
    let text = b.moves_string();
    let mut restored = Board::default();
    assert_eq!(restored.load_from_string(&text), Ok(()));
    assert_eq!(restored.moves(), b.moves());
    for x in 0..MAP_SIZE {
        for y in 0..MAP_SIZE {
            assert_eq!(restored.cell(x, y), b.cell(x, y));
        }
    }
}

#[test]
fn load_empty_list_gives_fresh_board() {
    let mut b = Board::default();
    b.put(3, 3);
    assert_eq!(b.load_from_string("[]"), Ok(()));
    assert!(b.moves().is_empty());
    assert_eq!(b.cell(3, 3), Cell::Empty);
}

#[test]
fn load_replays_through_put() {
    let mut b = Board::default();
    assert_eq!(b.load_from_string("[[4,5],[6,7]]"), Ok(()));
    assert_eq!(b.cell(4, 5), Cell::Black);
    assert_eq!(b.cell(6, 7), Cell::White);
    assert_eq!(b.next_color(), Cell::Black);
    assert!(!b.can_redo());
    assert!(b.can_undo());
}

#[test]
fn load_rejects_malformed_text_and_keeps_board() {
    let mut b = Board::default();
    b.put(2, 2);
    for bad in [
        "",
        "[",
        "]",
        "[[1,2]",
        "[[1,2],]",
        "[(1,2)]",
        "nonsense",
        "[[01,2]]",
        "[[1,2]]x",
        "[[-1,2]]",
        "[[1],[2]]",
        "[[1,2,3]]",
        "[[1 2]]",
        "[[1,2][3,4]]",
    ]
    .iter()
    {
        assert_eq!(b.load_from_string(bad), Err(ParseError::Malformed), "input {:?}", bad);
        assert_eq!(b.moves(), &vec![(2, 2)]);
        assert_eq!(b.cell(2, 2), Cell::Black);
    }
}

#[test]
fn load_accepts_whitespace_between_tokens() {
    for (text, expected) in [
        (" [[1,2]]", vec![(1usize, 2usize)]),
        ("[[1,2]] ", vec![(1, 2)]),
        ("[[1, 2]]", vec![(1, 2)]),
        ("[ [1 ,\t2] ,\n[3, 4] ]\r\n", vec![(1, 2), (3, 4)]),
        ("[ ]", vec![]),
        ("\t[]\n", vec![]),
    ]
    .iter()
    {
        // the same texts are valid JSON for the same pair lists
        let via_serde: Vec<(usize, usize)> = serde_json::from_str(text).unwrap();
        assert_eq!(&via_serde, expected);
        let mut b = Board::default();
        assert_eq!(b.load_from_string(text), Ok(()), "input {:?}", text);
        assert_eq!(b.moves(), expected);
    }
}

#[test]
fn load_rejects_illegal_moves_and_keeps_board() {
    let mut b = Board::default();
    b.put(2, 2);
    // off the board, and a coordinate played twice
    for bad in ["[[15,0]]", "[[0,15]]", "[[99,99]]", "[[1,2],[1,2]]", "[[3,4],[5,6],[3,4]]"].iter()
    {
        assert_eq!(b.load_from_string(bad), Err(ParseError::IllegalMove), "input {:?}", bad);
        assert_eq!(b.moves(), &vec![(2, 2)]);
    }
}

#[test]
fn load_rejects_huge_numbers() {
    let mut b = Board::default();
    // too large for usize on any machine
    let r = b.load_from_string("[[123456789012345678901234567890,0]]");
    assert_eq!(r, Err(ParseError::Malformed));
}

#[test]
fn save_record_at_formats_timestamp_and_moves() {
    let mut b = Board::default();
    b.put(7, 7);
    b.put(0, 0);
    let rec = b.save_record_at(2024, 3, 5, 14, 7, 9);
    assert_eq!(rec, "2024-03-05 14:07:09 \n[[7,7],[0,0]]\n");
}

#[test]
fn save_record_at_keeps_wide_fields() {
    let b = Board::default();
    let rec = b.save_record_at(987, 12, 31, 23, 59, 0);
    assert_eq!(rec, "987-12-31 23:59:00 \n[]\n");
}

#[test]
fn save_record_uses_clock_with_two_lines() {
    let mut b = Board::default();
    b.put(1, 1);
    let rec = b.save_record();
    let lines: Vec<&str> = rec.lines().collect();
    assert_eq!(lines.len(), 2);
    assert_eq!(lines[1], "[[1,1]]");
    assert!(lines[0].ends_with(' '));
}

#[test]
fn round_trip_many_moves() {
    let mut b = Board::default();
    for i in 0..MAP_SIZE {
        for j in 0..4 {
            b.put(i, 2 * j + (i % 2));
        }
    }
    let text = b.moves_string();
    let mut restored = Board::default();
    assert_eq!(restored.load_from_string(&text), Ok(()));
    assert_eq!(restored.moves(), b.moves());
}
