use quaternion::game::diagram::{HOLD_LINE, QUEUE_END_LINE, QUEUE_FIRST_LINE};
use quaternion::game::sim::{SimState, QUEUE_LEN};
use quaternion::game::{Board, Key, Move, MoveStats, Piece, Rotation, State};

const DIAGRAM: &str = "
. . . . . . . . . .  b2b:    2
. . . . . . . . . .  combo:  13
. . . . . . . . . .
. . . . . . . . . .  hold:  Some(Z)
. . . . . . . . . .  queue:
. . . . . . . . . .  T
. . . . . . . . . .  S
. . . . . . . . . .  L
. . . . . . . . . .  J
. . . . . . . . . .  O
. . . . . . . . . .
. . . . . . . . . .
. . . . . . . . . .
. . . . . . . . . .
. . . . . . . . . .
. . . . . . . . . .
. . . . . . . . . .
# . . . . . . . . .
. . . # # # # # # #
# . # # # # # # # #
";

#[test]
fn state_from_diagram() {
    assert_eq!((HOLD_LINE, QUEUE_FIRST_LINE, QUEUE_END_LINE), (3, 5, 10));
    let state = State::from_str(DIAGRAM);
    assert_eq!(state.b2b, 2);
    assert_eq!(state.combo, 13);
    assert_eq!(state.hold, None);
    assert_eq!(
        state.queue.iter().copied().collect::<Vec<_>>(),
        vec![Piece::T, Piece::S, Piece::L, Piece::J, Piece::O]
    );
    assert_eq!(state.board.v, [0b101, 0, 0b001, 0b011, 0b011, 0b011, 0b011, 0b011, 0b011, 0b011]);
    assert_eq!(state.board, Board::from_str(DIAGRAM));
    assert!(state.is_valid());
}

#[test]
fn held_piece_and_short_queue_from_diagram() {
    let text = "
. . . . . . . . . .  b2b:    0
. . . . . . . . . .  combo:  255
. . . . . . . . . .
. . . . . . . . . .  hold:  I
. . . . . . . . . .  queue:
. . . . . . . . . .  Z
. . . . . . . . . .
. . . . . . . . . .  O
";
    let state = State::from_str(text);
    assert_eq!(state.hold, Some(Piece::I));
    assert_eq!(state.combo, 255);
    assert_eq!(state.queue.iter().copied().collect::<Vec<_>>(), vec![Piece::Z, Piece::O]);
    assert!(state.board.all_clear());
}

#[test]
fn text_that_is_no_diagram_is_not_parsed() {
    assert!(State::parse(DIAGRAM).is_some());
    assert!(State::parse("").is_none());
    assert!(State::parse(". . . b2b: 0").is_none());
    assert!(State::parse(". . . b2b: 0\n. . . combo: x").is_none());
    assert!(State::parse(". . . b2b: 0\n. . . combo: 256").is_none());
    assert!(State::parse(". . . b2b: 0\n. . . combo:7").is_none());
    assert!(State::parse(". . . b2b: -1\n. . . combo: 7").is_none());
    assert!(State::parse(". . . b2b: 1000\n. . . combo: 7").is_none());
    let short = State::parse("  \n\n . . . b2b: 0 \r\n. . . combo: 007\t\n").unwrap();
    assert_eq!((short.b2b, short.combo), (0, 7));
    assert!(short.queue.is_empty());
    assert_eq!(short.hold, None);
    let bare = State::parse("12\n34").unwrap();
    assert_eq!((bare.b2b, bare.combo), (12, 34));
}

#[test]
fn game_from_diagram() {
    let sim = SimState::from_str(DIAGRAM);
    assert_eq!(sim.get_state(), &State::from_str(DIAGRAM));
    assert_eq!(sim.bag, vec![Piece::Z, Piece::I]);
    for x in 0..10 {
        for y in 0..20 {
            let occupied = sim.state.board.v[x] & (1 << y) != 0;
            assert_eq!(sim.v[y][x], if occupied { Piece::O } else { Piece::Empty });
        }
    }
    assert!(sim.equals(DIAGRAM));
    assert!(sim.equals(". . . . . . . . . ."));
    let more = DIAGRAM.replace("# . . . . . . . . .", "# # . . . . . . . .");
    assert!(!sim.equals(&more));
}

#[test]
fn new_game_has_a_full_queue() {
    let sim = SimState::new();
    assert_eq!(sim.state.queue.len(), QUEUE_LEN);
    assert_eq!(sim.bag.len(), 1);
    assert!(sim.state.board.all_clear());
    assert!(sim.state.is_valid());
    let mut seen: Vec<Piece> = sim.state.queue.iter().copied().collect();
    seen.extend(sim.bag.iter().copied());
    for piece in [Piece::J, Piece::L, Piece::S, Piece::Z, Piece::T, Piece::I, Piece::O] {
        assert_eq!(seen.iter().filter(|p| **p == piece).count(), 1);
    }
}

#[test]
fn drawn_pieces_come_from_the_bag() {
    // Whatever is picked, no piece comes twice before the bag is empty.
    for _ in 0..20 {
        let mut sim = SimState::from_str(DIAGRAM);
        sim.state.queue.clear();
        sim.bag = vec![Piece::Z, Piece::I, Piece::T];
        sim.draw();
        let queue: Vec<Piece> = sim.state.queue.iter().copied().collect();
        assert_eq!(queue.len(), QUEUE_LEN);
        let mut first: Vec<Piece> = queue[..3].to_vec();
        first.sort_by_key(|p| *p as u8);
        let mut bag = vec![Piece::Z, Piece::I, Piece::T];
        bag.sort_by_key(|p| *p as u8);
        assert_eq!(first, bag);
        for (i, p) in queue[3..].iter().enumerate() {
            assert!(!queue[3..3 + i].contains(p));
            assert!(!sim.bag.contains(p));
        }
        assert_eq!(sim.bag.len(), 4);
    }
}

#[test]
fn take_picks_from_the_bag() {
    let mut sim = SimState::from_str(DIAGRAM);
    // The bag holds Z and I; a pick behind the end takes the last piece.
    sim.take(usize::MAX);
    assert_eq!(sim.state.queue.back(), Some(&Piece::I));
    assert_eq!(sim.bag, vec![Piece::Z]);
    sim.take(0);
    assert_eq!(sim.state.queue.back(), Some(&Piece::Z));
    assert!(sim.bag.is_empty());
    // An empty bag is filled first.
    sim.take(2);
    assert_eq!(sim.state.queue.back(), Some(&Piece::S));
    assert_eq!(sim.bag, vec![Piece::J, Piece::L, Piece::Z, Piece::T, Piece::I, Piece::O]);
    // A full queue is left alone by drawing.
    let before = sim.state.clone();
    sim.draw();
    assert_eq!(sim.state, before);
}

#[test]
fn garbage_comes_in_from_below() {
    let mut sim = SimState::from_str(DIAGRAM);
    sim.gen_garbage(2, 4);
    assert_eq!(
        sim.state.board.v,
        [0b10111, 0b00011, 0b00111, 0b01111, 0b01100, 0b01111, 0b01111, 0b01111, 0b01111, 0b01111]
    );
    for x in 0..10 {
        for y in 0..20 {
            let occupied = sim.state.board.v[x] & (1 << y) != 0;
            assert_eq!(sim.v[y][x] != Piece::Empty, occupied);
        }
    }
    assert_eq!(sim.v[0][4], Piece::Empty);
    assert_eq!(sim.v[1][3], Piece::O);
    // No more than ten lines come in at once, and what is pushed out is lost.
    let mut high = SimState::from_str(DIAGRAM);
    high.gen_garbage(30, 0);
    high.gen_garbage(9, 9);
    assert_eq!(high.state.board.v[0], 0b1000_0000_0001_1111_1111);
    assert_eq!(high.state.board.v[1], 0b0111_1111_1111_1111_1111);
    assert_eq!(high.state.board.v[9], 0b1111_1111_1110_0000_0000);
    assert!(high.state.is_valid());
}

#[test]
fn playing_a_move_colours_the_board_and_clears_lines() {
    let sim = SimState::from_str(DIAGRAM);
    // The T goes into the gap: drop, left three times, turn, as a T-spin
    // double would end.
    let mov = Move { x: 1, y: 1, r: Rotation::S, list: 0 };
    assert!(sim.state.can_apply(&mov));
    let (after, stats) = sim.advance_with(&mov);
    assert_eq!(stats, MoveStats { attacks: 4, ds: 2, tspin: true });
    assert_eq!(after.state.b2b, 3);
    assert_eq!(after.state.combo, 14);
    assert_eq!(after.state.board.v, [1, 0, 0, 0, 0, 0, 0, 0, 0, 0]);
    assert_eq!(after.v[0][0], Piece::O);
    for x in 1..10 {
        assert_eq!(after.v[0][x], Piece::Empty);
    }
    for y in 1..20 {
        assert_eq!(after.v[y], [Piece::Empty; 10]);
    }
    assert_eq!(after.state.queue.len(), 4);
    let rest = format!("{}# . . . . . . . . .", ". . . . . . . . . .\n".repeat(19));
    assert!(after.equals(&rest));
    let other = format!("{}. # . . . . . . . .", ". . . . . . . . . .\n".repeat(19));
    assert!(!after.equals(&other));
}

#[test]
fn playing_a_move_keeps_the_colours() {
    let mut sim = SimState::from_str(DIAGRAM);
    sim.state.queue.push_front(Piece::L);
    let mov = Move { x: 5, y: 2, r: Rotation::N, list: 0 };
    let (after, stats) = sim.advance(&mov);
    assert_eq!(stats, MoveStats { attacks: 0, ds: 0, tspin: false });
    assert_eq!(after.v[2][4], Piece::L);
    assert_eq!(after.v[2][5], Piece::L);
    assert_eq!(after.v[2][6], Piece::L);
    assert_eq!(after.v[3][6], Piece::L);
    assert_eq!(after.v[1][6], Piece::O);
    assert_eq!(after.state.combo, 0);
    assert_eq!(after.state.b2b, 2);
    // The queue is filled up again.
    assert_eq!(after.state.queue.len(), QUEUE_LEN);
    assert_eq!(after.state.queue[0], Piece::T);
    let mut held = Move { x: 5, y: 2, r: Rotation::N, list: 0 };
    held.add_key(&Key::Hold);
    assert!(!after.state.can_apply(&held));
}
