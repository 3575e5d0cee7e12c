use quaternion::game::{Board, Key, Move, Piece, Rotation};

fn cells(board: &Board) -> u32 {
    board.v.iter().map(|c| c.count_ones()).sum()
}

#[test]
fn clear_takes_ten_cells_per_line_and_leaves_no_full_row() {
    let mut board = Board {
        v: [
            0b1011_0111,
            0b1011_0101,
            0b1111_0101,
            0b1010_0111,
            0b1011_0101,
            0b1011_1101,
            0b1010_0101,
            0b1011_0101,
            0b1010_0111,
            0b1011_0101,
        ],
    };
    let before = cells(&board);
    let clears = board.clear();
    assert_eq!(clears, 4);
    assert_eq!(cells(&board), before - 10 * clears);
    let full = board.v.iter().fold(!0u32, |a, c| a & c);
    assert_eq!(full, 0);
    assert_eq!(
        board.v,
        [0b101, 0b100, 0b1100, 0b1, 0b100, 0b110, 0b0, 0b100, 0b1, 0b100]
    );
}

#[test]
fn clear_of_a_board_without_full_rows_changes_nothing() {
    let mut board = Board { v: [1, 2, 4, 8, 16, 32, 64, 128, 256, 0] };
    let copy = board;
    assert_eq!(board.clear(), 0);
    assert_eq!(board, copy);
}

#[test]
fn clear_of_a_full_board_empties_it() {
    let mut board = Board { v: [0xf_ffff; 10] };
    assert_eq!(board.clear(), 20);
    assert!(board.all_clear());
}

#[test]
fn place_sets_the_four_cells() {
    let mut board = Board::default();
    let mov = Move { x: 4, y: 0, r: Rotation::N, list: 0 };
    assert!(board.can_place(Piece::L, &mov));
    board.place(Piece::L, &mov);
    assert_eq!(board.v, [0, 0, 0, 0b01, 0b01, 0b11, 0, 0, 0, 0]);
    // The same cells are taken now.
    assert!(!board.can_place(Piece::L, &mov));
    // A piece that would leave the board does not fit.
    assert!(!board.can_place(Piece::I, &Move { x: 8, y: 5, r: Rotation::N, list: 0 }));
    assert!(!board.can_place(Piece::I, &Move { x: 0, y: 5, r: Rotation::N, list: 0 }));
    assert!(!board.can_place(Piece::T, &Move { x: 4, y: 19, r: Rotation::N, list: 0 }));
    assert!(!board.can_place(Piece::T, &Move { x: 4, y: 0, r: Rotation::S, list: 0 }));
    assert!(board.can_place(Piece::T, &Move { x: 4, y: 18, r: Rotation::N, list: 0 }));
}

#[test]
fn cells_of_the_pieces() {
    assert_eq!(Piece::T.cells(Rotation::N), [(-1, 0), (0, 0), (1, 0), (0, 1)]);
    assert_eq!(Piece::T.cells(Rotation::S), [(1, 0), (0, 0), (-1, 0), (0, -1)]);
    assert_eq!(Piece::T.cells(Rotation::E), [(0, 1), (0, 0), (0, -1), (1, 0)]);
    assert_eq!(Piece::T.cells(Rotation::W), [(0, -1), (0, 0), (0, 1), (-1, 0)]);
    assert_eq!(Piece::I.cells(Rotation::N), [(-1, 0), (0, 0), (1, 0), (2, 0)]);
    assert_eq!(Piece::O.cells(Rotation::N), [(0, 0), (1, 0), (0, 1), (1, 1)]);
    assert_eq!(Piece::L.cells(Rotation::N), [(-1, 0), (0, 0), (1, 0), (1, 1)]);
    assert_eq!(Piece::J.cells(Rotation::N), [(-1, 0), (0, 0), (1, 0), (-1, 1)]);
    assert_eq!(Piece::S.cells(Rotation::N), [(-1, 0), (0, 0), (0, 1), (1, 1)]);
    assert_eq!(Piece::Z.cells(Rotation::N), [(-1, 1), (0, 1), (0, 0), (1, 0)]);
}

#[test]
fn rotations_are_cyclic() {
    for r in [Rotation::N, Rotation::E, Rotation::S, Rotation::W] {
        assert_eq!(r.cw().ccw(), r);
        assert_eq!(r.cw().cw().cw().cw(), r);
    }
    assert_eq!(Rotation::N.cw(), Rotation::E);
    assert_eq!(Rotation::N.ccw(), Rotation::W);
    assert_eq!(Rotation::N.index(), 0);
    assert_eq!(Rotation::S.index(), 1);
    assert_eq!(Rotation::E.index(), 2);
    assert_eq!(Rotation::W.index(), 3);
}

#[test]
fn occupied_counts_walls_and_floor() {
    let board = Board { v: [1, 0, 0, 0, 0, 0, 0, 0, 0, 2] };
    assert!(board.occupied(0, 0));
    assert!(!board.occupied(0, 1));
    assert!(board.occupied(9, 1));
    assert!(board.occupied(-1, 5));
    assert!(board.occupied(10, 5));
    assert!(board.occupied(3, -1));
    assert!(!board.occupied(3, 25));
    assert!(!board.occupied(3, 40));
}

#[test]
fn three_corner_rule() {
    let mut v = [0b00111u32; 10];
    v[0] = 0b11111;
    v[1] = 0b10000;
    v[2] = 0b00101;
    let mut board = Board { v };
    let mov = Move { x: 1, y: 1, r: Rotation::E, list: 0 };
    board.place(Piece::T, &mov);
    assert!(board.is_tspin(&mov));
    // In the open only the floor is near.
    let mut open = Board::default();
    let flat = Move { x: 4, y: 0, r: Rotation::N, list: 0 };
    open.place(Piece::T, &flat);
    assert!(!open.is_tspin(&flat));
    // In a corner of the board the wall and the floor give three corners.
    let corner = Move { x: 0, y: 0, r: Rotation::E, list: 0 };
    assert!(Board::default().is_tspin(&corner));
}

#[test]
fn distance_to_floor_counts_free_cells_below() {
    let board = Board { v: [0b0100, 0, 0, 0, 0, 0, 0, 0, 0, 0] };
    assert_eq!(board.distance_to_floor(0, 19), 16);
    assert_eq!(board.distance_to_floor(0, 3), 0);
    assert_eq!(board.distance_to_floor(0, 2), 2);
    assert_eq!(board.distance_to_floor(0, 0), 0);
    assert_eq!(board.distance_to_floor(1, 19), 19);
    assert_eq!(board.distance_to_floor(1, 40), 40);
}

#[test]
fn key_list_round_trip() {
    let keys = [Key::L, Key::R, Key::CW, Key::CCW, Key::Drop, Key::Hold];
    let mut mov = Move::default();
    let mut expected = vec![];
    for i in 0..19 {
        assert!(mov.list_has_space());
        assert_eq!(mov.list_len(), i as u64);
        let key = keys[i % keys.len()];
        mov.add_key(&key);
        expected.push(key);
        assert_eq!(mov.parse_list(), expected);
    }
    assert!(!mov.list_has_space());
    assert_eq!(mov.list_len(), 19);
    assert_eq!((mov.x, mov.y, mov.r), (0, 0, Rotation::N));
}

#[test]
fn key_lists_are_told_from_other_words() {
    let mut mov = Move::default();
    assert!(mov.is_valid());
    mov.add_key(&Key::Drop);
    mov.add_key(&Key::Hold);
    assert!(mov.is_valid());
    // A length beyond the capacity.
    assert!(!Move { list: 20, ..mov }.is_valid());
    // A keystroke without a code, and a code without a key.
    assert!(!Move { list: 1, ..mov }.is_valid());
    assert!(!Move { list: 1 + (7 << 5), ..mov }.is_valid());
    // Something behind the last keystroke.
    assert!(!Move { list: mov.list + (1 << 11), ..mov }.is_valid());
    assert!(!Move { list: mov.list + (1 << 62), ..mov }.is_valid());
}

#[test]
fn key_list_encoding() {
    let mut mov = Move::default();
    mov.add_key(&Key::Drop);
    assert_eq!(mov.list, 1 + (5 << 5));
    mov.add_key(&Key::CW);
    assert_eq!(mov.list, 2 + (5 << 5) + (3 << 8));
}

#[test]
fn canonical_key() {
    let a = Move { x: 3, y: 7, r: Rotation::E, list: 0 };
    let mut b = a;
    b.add_key(&Key::L);
    assert_eq!(a.canon(), (7 << 16) + (3 << 8) + 2);
    assert_eq!(a.canon(), b.canon());
    assert_ne!(a.canon(), Move { x: 7, y: 3, r: Rotation::E, list: 0 }.canon());
    assert_ne!(a.canon(), Move { x: 3, y: 7, r: Rotation::W, list: 0 }.canon());
}

#[test]
fn wall_kicks() {
    let kicks = Rotation::make_kicks();
    // L from north to east.
    assert_eq!(kicks[0][0][2], [(0, 0), (-1, 0), (-1, 1), (0, -2), (-1, -2)]);
    assert_eq!(kicks[0][0][2], Rotation::kicktable(Piece::L, Rotation::N, Rotation::E));
    // I from north to east.
    assert_eq!(kicks[5][0][2], [(1, 0), (-1, 0), (2, 0), (-1, -1), (2, 2)]);
    // O from north to east.
    assert_eq!(kicks[6][0][2], [(0, 1); 5]);
    // Turning into the same facing moves nothing.
    assert_eq!(kicks[4][3][3], [(0, 0); 5]);
    assert_eq!(
        Rotation::offsets(Piece::T, Rotation::W),
        [(0, 0), (-1, 0), (-1, -1), (0, 2), (-1, 2)]
    );
}

#[test]
fn board_from_diagram() {
    let board = Board::from_str(
        "
        . . . . . . . . . #
        # . . . . . . . . .
        ",
    );
    let mut v = [0u32; 10];
    v[9] = 1 << 19;
    v[0] = 1 << 18;
    assert_eq!(board.v, v);
    assert_eq!(Board::from_str("no cells at all").v, [0; 10]);
    // Only the first two hundred cells count.
    let many = "#".repeat(250);
    assert_eq!(Board::from_str(&many).v, [0xf_ffff; 10]);
}
