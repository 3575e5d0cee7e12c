use quaternion::game::advance::PERFECT_CLEAR_BONUS;
use quaternion::game::movegen::{gen_moves, gen_moves_one, ConflictTable};
use quaternion::game::{Board, Key, Move, MoveStats, Piece, Rotation, State};

fn state_with(board: Board, queue: Vec<Piece>, combo: u8) -> State {
    State { board, queue: queue.into_iter().collect(), hold: None, b2b: 0, combo }
}

/// Row 0 is full but for columns 3 to 6; one more block lies on top in
/// column 0 so that the clear does not empty the board.
fn one_line_board() -> Board {
    let mut v = [1u32; 10];
    v[0] = 0b11;
    v[3] = 0;
    v[4] = 0;
    v[5] = 0;
    v[6] = 0;
    Board { v }
}

#[test]
fn single_clear_without_combo_sends_nothing() {
    let state = state_with(one_line_board(), vec![Piece::I, Piece::O], 0);
    let mov = Move { x: 4, y: 0, r: Rotation::N, list: 0 };
    assert!(state.can_apply(&mov));
    let (next, stats) = state.apply_move_with_stats(&mov);
    assert_eq!(stats, MoveStats { attacks: 0, ds: 1, tspin: false });
    assert_eq!(next.combo, 1);
    assert_eq!(next.b2b, 0);
    assert_eq!(next.board.v, [1, 0, 0, 0, 0, 0, 0, 0, 0, 0]);
    assert_eq!(next.queue.len(), 1);
}

#[test]
fn single_clear_in_a_combo_of_four_sends_one() {
    let state = state_with(one_line_board(), vec![Piece::I, Piece::O], 4);
    let mov = Move { x: 4, y: 0, r: Rotation::N, list: 0 };
    let (next, stats) = state.apply_move_with_stats(&mov);
    assert_eq!(stats.attacks, 1);
    assert_eq!(stats.ds, 1);
    assert_eq!(next.combo, 5);
}

#[test]
fn easy_clear_ends_the_streak() {
    let mut state = state_with(one_line_board(), vec![Piece::I, Piece::O], 0);
    state.b2b = 5;
    let mov = Move { x: 4, y: 0, r: Rotation::N, list: 0 };
    let (next, stats) = state.apply_move_with_stats(&mov);
    assert_eq!(stats, MoveStats { attacks: 0, ds: 1, tspin: false });
    assert_eq!(next.b2b, 0);
    assert_eq!(next.combo, 1);
}

#[test]
fn long_combo_reads_the_last_table_entry() {
    let state = state_with(one_line_board(), vec![Piece::I, Piece::O], 40);
    let mov = Move { x: 4, y: 0, r: Rotation::N, list: 0 };
    let (next, stats) = state.apply_move_with_stats(&mov);
    assert_eq!(stats.attacks, 2);
    assert_eq!(next.combo, 41);
}

#[test]
fn counters_stop_at_their_largest_value() {
    let mut v = [0b1111u32; 10];
    v[0] = 0b11111;
    v[9] = 0;
    let state = State {
        board: Board { v },
        queue: vec![Piece::I, Piece::O].into_iter().collect(),
        hold: None,
        b2b: 255,
        combo: 255,
    };
    // A vertical I in the last column clears four lines.
    let mov = Move { x: 9, y: 1, r: Rotation::W, list: 0 };
    assert!(state.can_apply(&mov));
    let (next, stats) = state.apply_move_with_stats(&mov);
    assert_eq!(stats.ds, 4);
    assert_eq!(stats.attacks, 4);
    assert!(stats.tspin);
    assert_eq!(next.combo, 255);
    assert_eq!(next.b2b, 255);
}

#[test]
fn tspin_triple_sends_six() {
    let mut v = [0b00111u32; 10];
    v[0] = 0b11111;
    v[1] = 0b10000;
    v[2] = 0b00101;
    let state = state_with(Board { v }, vec![Piece::T, Piece::O], 0);
    let mov = Move { x: 1, y: 1, r: Rotation::E, list: 0 };
    assert!(state.can_apply(&mov));
    let (next, clears, tspin) = state.clone().apply_move_return_clears(&mov);
    assert_eq!(clears, 3);
    assert!(tspin);
    assert_eq!(next.b2b, 1);
    let (next, stats) = state.apply_move_with_stats(&mov);
    assert_eq!(stats, MoveStats { attacks: 6, ds: 3, tspin: true });
    assert_eq!(next.board.v, [0b11, 0b10, 0, 0, 0, 0, 0, 0, 0, 0]);
}

#[test]
fn clear_that_empties_the_board_adds_the_bonus() {
    let mut v = [1u32; 10];
    v[3] = 0;
    v[4] = 0;
    v[5] = 0;
    v[6] = 0;
    let state = state_with(Board { v }, vec![Piece::I, Piece::O], 0);
    let mov = Move { x: 4, y: 0, r: Rotation::N, list: 0 };
    let (next, stats) = state.apply_move_with_stats(&mov);
    assert_eq!(PERFECT_CLEAR_BONUS, 10);
    assert_eq!(stats.attacks, 10);
    assert_eq!(stats.ds, 1);
    assert!(next.board.all_clear());

    // With a combo of four the base value of one is paid on top.
    let state = state_with(Board { v }, vec![Piece::I, Piece::O], 4);
    let (_, stats) = state.apply_move_with_stats(&mov);
    assert_eq!(stats.attacks, 11);
}

#[test]
fn move_without_clear_ends_the_combo_and_keeps_the_streak() {
    let state = State {
        board: Board::default(),
        queue: vec![Piece::O, Piece::T].into_iter().collect(),
        hold: None,
        b2b: 3,
        combo: 7,
    };
    let mov = Move { x: 4, y: 0, r: Rotation::N, list: 0 };
    let (next, stats) = state.apply_move_with_stats(&mov);
    assert_eq!(stats, MoveStats { attacks: 0, ds: 0, tspin: false });
    assert_eq!(next.combo, 0);
    assert_eq!(next.b2b, 3);
    assert_eq!(next.board.v, [0, 0, 0, 0, 0b11, 0b11, 0, 0, 0, 0]);
}

#[test]
fn every_piece_has_a_flat_placement_under_the_spawn() {
    let pieces = [Piece::L, Piece::J, Piece::S, Piece::Z, Piece::T, Piece::I, Piece::O];
    for piece in pieces {
        let board = Board::default();
        let moves = gen_moves_one(&board, piece, false);
        assert!(!moves.is_empty());
        let flat: Vec<&Move> =
            moves.iter().filter(|m| m.x == 4 && m.y == 0 && m.r == Rotation::N).collect();
        assert_eq!(flat.len(), 1);
        assert_eq!(flat[0].parse_list(), vec![Key::Drop]);
    }
}

#[test]
fn enumerated_moves_are_legal_resting_and_distinct() {
    let board = Board {
        v: [0b0111, 0b0001, 0b0000, 0b0011, 0b1111, 0b0000, 0b0001, 0b0101, 0b0000, 0b0011],
    };
    let pieces = [Piece::L, Piece::J, Piece::S, Piece::Z, Piece::T, Piece::I, Piece::O];
    for piece in pieces {
        let table = ConflictTable::from(&board, piece);
        let moves = gen_moves_one(&board, piece, false);
        assert!(!moves.is_empty());
        assert!(moves.len() <= 1280);
        for pair in moves.windows(2) {
            assert!(pair[0].list_len() <= pair[1].list_len());
        }
        for (i, m) in moves.iter().enumerate() {
            // No cell of the piece lies on an occupied cell or off the board.
            assert!(board.can_place(piece, m));
            assert!(!table.conflicts(m));
            // One row further down the piece would collide.
            assert!(table.touches(m));
            let below = Move { y: m.y - 1, ..*m };
            assert!(table.conflicts(&below));
            // The keystrokes lead to the placement.
            let mut at = Move { x: 4, y: 19, r: Rotation::N, list: 0 };
            for key in m.parse_list() {
                at = match key {
                    Key::Drop => at.drop(&board, piece).unwrap(),
                    Key::R => at.shift(1, &table).unwrap(),
                    Key::L => at.shift(-1, &table).unwrap(),
                    Key::CW => at.cw(&table).unwrap(),
                    Key::CCW => at.ccw(&table).unwrap(),
                    Key::Hold => panic!("hold in a search without hold"),
                };
            }
            assert_eq!(at, *m);
            for other in &moves[i + 1..] {
                assert!(!(other.x == m.x && other.y == m.y && other.r == m.r));
            }
        }
    }
}

#[test]
fn blocked_spawn_yields_no_moves() {
    let mut v = [0u32; 10];
    v[4] = 1 << 19;
    let moves = gen_moves_one(&Board { v }, Piece::T, false);
    assert!(moves.is_empty());
}

#[test]
fn held_piece_moves_begin_with_hold() {
    let state = State {
        board: Board::default(),
        queue: vec![Piece::T, Piece::O].into_iter().collect(),
        hold: Some(Piece::I),
        b2b: 0,
        combo: 0,
    };
    let moves = gen_moves(&state);
    let active = gen_moves_one(&state.board, Piece::T, false);
    let held = gen_moves_one(&state.board, Piece::I, true);
    assert_eq!(moves.len(), active.len() + held.len());
    assert_eq!(&moves[..active.len()], &active[..]);
    assert_eq!(&moves[active.len()..], &held[..]);
    for m in &held {
        assert!(m.held());
        assert_eq!(m.parse_list()[0], Key::Hold);
        assert_eq!(state.placed_piece(m), Some(Piece::I));
        assert!(state.can_apply(m));
        let next = state.clone().apply_move(m);
        assert_eq!(next.hold, Some(Piece::T));
        assert_eq!(next.queue.len(), 1);
    }
    for m in &active {
        assert!(!m.held());
        assert_eq!(state.placed_piece(m), Some(Piece::T));
    }
}

#[test]
fn hold_without_a_held_piece_takes_two_from_the_queue() {
    let state = State {
        board: Board::default(),
        queue: vec![Piece::T, Piece::O, Piece::I].into_iter().collect(),
        hold: None,
        b2b: 0,
        combo: 0,
    };
    let mut mov = Move { x: 4, y: 0, r: Rotation::N, list: 0 };
    mov.add_key(&Key::Hold);
    assert_eq!(state.placed_piece(&mov), Some(Piece::O));
    let next = state.apply_move(&mov);
    assert_eq!(next.hold, Some(Piece::T));
    assert_eq!(next.queue.iter().copied().collect::<Vec<_>>(), vec![Piece::I]);
    assert_eq!(next.board.v, [0, 0, 0, 0, 0b11, 0b11, 0, 0, 0, 0]);
}

#[test]
fn applying_a_move_twice_gives_the_same_result() {
    let mut v = [0b00111u32; 10];
    v[0] = 0b11111;
    v[1] = 0b10000;
    v[2] = 0b00101;
    let state = State {
        board: Board { v },
        queue: vec![Piece::T, Piece::O, Piece::I].into_iter().collect(),
        hold: Some(Piece::L),
        b2b: 2,
        combo: 3,
    };
    let mov = Move { x: 1, y: 1, r: Rotation::E, list: 0 };
    let first = state.clone().apply_move_with_stats(&mov);
    let second = state.clone().apply_move_with_stats(&mov);
    assert_eq!(first, second);
    assert_eq!(first.0, state.clone().apply_move(&mov));
    let (next, clears, tspin) = state.apply_move_return_clears(&mov);
    assert_eq!(next, first.0);
    assert_eq!((clears, tspin), (3, true));
    assert_eq!(first.1, MoveStats { attacks: 6, ds: 3, tspin: true });
    assert_eq!((next.b2b, next.combo), (3, 4));
}

#[test]
fn generators_give_nothing_where_there_is_no_way() {
    // At the left wall there is no shift to the left, on the floor no drop.
    let open = Board::default();
    let table = ConflictTable::from(&open, Piece::O);
    assert_eq!(table.piece(), Piece::O);
    let corner = Move { x: 0, y: 0, r: Rotation::N, list: 0 };
    assert_eq!(corner.shift(-1, &table), None);
    assert_eq!(corner.drop(&open, Piece::O), None);
    let right = Move { x: 8, y: 0, r: Rotation::N, list: 0 };
    assert_eq!(right.shift(1, &table), None);
    assert!(right.shift(-1, &table).is_some());

    // A T that lies in a slot of its own shape cannot be turned.
    let mut v = [0b11_1111u32; 10];
    v[0] = 0b11_1110;
    v[1] = 0b11_1100;
    v[2] = 0b11_1110;
    let tight = Board { v };
    let table = ConflictTable::from(&tight, Piece::T);
    let lying = Move { x: 1, y: 0, r: Rotation::N, list: 0 };
    assert!(!table.conflicts(&lying));
    assert!(table.touches(&lying));
    assert_eq!(lying.cw(&table), None);
    assert_eq!(lying.ccw(&table), None);
    assert_eq!(lying.rotate(&table, Rotation::N, Rotation::E), None);
    assert_eq!(lying.shift(1, &table), None);
    assert_eq!(lying.drop(&tight, Piece::T), None);

    // Outside the table everything conflicts.
    assert!(table.conflicts(&Move { x: -1, y: 5, r: Rotation::N, list: 0 }));
    assert!(table.conflicts(&Move { x: 10, y: 5, r: Rotation::N, list: 0 }));
    assert!(table.conflicts(&Move { x: 4, y: -1, r: Rotation::N, list: 0 }));
    assert!(table.conflicts(&Move { x: 4, y: 32, r: Rotation::N, list: 0 }));
    assert!(!table.conflicts(&Move { x: 4, y: 31, r: Rotation::N, list: 0 }));
}
