use quaternion::game::movegen::gen_moves;
use quaternion::game::sim::SimState;
use quaternion::game::{Piece, Rotation};
use quaternion::worker::Worker;

/// Lets the search play `iters` moves, each after it has used up its node
/// budget.
fn iter(mut state: SimState, iters: u32) -> SimState {
    let mut bot = Worker::new();

    println!("init state:\n{:?}", state.get_state());
    bot.advance(state.get_state());
    bot.start();

    for _ in 0..iters {
        bot.work_for(100000);

        // Get solution & stats
        assert!(bot.tree.has_solution());
        let mov = bot.solution().mv;
        assert!(state.get_state().can_apply(&mov));
        (state, _) = state.advance(&mov);
        bot.advance(state.get_state());

        println!("{:?}", state.get_state());
    }
    bot.stop();

    state
}

#[test]
fn tspin1() {
    let input = "
. . . . . . . . . .  b2b:    0
. . . . . . . . . .  combo:  0
. . . . . . . . . .
. . . . . . . . . .  hold:  None
. . . . . . . . . .  queue:
. . . . . . . . . .  T
. . . . . . . . . .  S
. . . . . . . . . .  L
. . . . . . . . . .  J
. . . . . . . . . .  O
. . . . . . . . . . 
. . . . . . . . . .
. . . . . . . . . . 
. . . . . . . . . .
. . . . . . . . . . 
. . . . . . . . . . 
. . . . . . . . . . 
# . . . . . . . . .
. . . # # # # # # #
# . # # # # # # # #
    ";

    let output = "
. . . . . . . . . .
. . . . . . . . . .
. . . . . . . . . .
. . . . . . . . . .
. . . . . . . . . .
. . . . . . . . . .
. . . . . . . . . .
. . . . . . . . . .
. . . . . . . . . .
. . . . . . . . . .
. . . . . . . . . . 
. . . . . . . . . .
. . . . . . . . . . 
. . . . . . . . . .
. . . . . . . . . . 
. . . . . . . . . . 
. . . . . . . . . . 
. . . . . . . . . . 
. . . . . . . . . . 
# . . . . . . . . .
    ";

    let state = iter(SimState::from_str(input), 1);

    // Render
    println!("expected:\n{output}");
    println!("got:\n{:?}", state.get_state());

    assert!(state.equals(output));
}

#[test]
fn tspin2() {

    let input = "
. . . . . . . . . .  b2b:    0
. . . . . . . . . .  combo:  0
. . . . . . . . . .
. . . . . . . . . .  hold: T 
. . . . . . . . . .  queue:
. . . . . . . . . .  Z
. . . . . . . . . .  L
. . . . . . . . . .  T
. . . . . . . . . .  J
. . . . . . . . . .  O
. . . . . . . . . . 
. . . . . . . . . .
. . . . . . . . . . 
. . . . . . . . . .
. . . . . . . . . . 
. . . . . . . . . . 
. . . . . . . . . . 
# . . . . . . . . .
# . . . . . # # # #
# # . # # # # # # #
    ";

    let output = "
. . . . . . . . . .
. . . . . . . . . .
. . . . . . . . . .
. . . . . . . . . .
. . . . . . . . . .
. . . . . . . . . .
. . . . . . . . . .
. . . . . . . . . .
. . . . . . . . . .
. . . . . . . . . .
. . . . . . . . . . 
. . . . . . . . . .
. . . . . . . . . . 
. . . . . . . . . .
. . . . . . . . . . 
. . . . . . . . . . 
. . . . . . . . . . 
. . . . . . . . . . 
. . . . . . . . . . 
# . . # # . . . . .
    ";

    let state = iter(SimState::from_str(input), 3);

    // Render
    println!("expected:\n{output}");
    println!("got:\n{:?}", state.get_state());

    assert!(state.equals(output));
}


#[test]
fn tspin3() {

    let input = "
. . . . . . . . . .  b2b:    0
. . . . . . . . . .  combo:  1
. . . . . . . . . .
. . . . . . . . . .  hold:  Some(T)
. . . . . . . . . .  queue:
. . . . . . . . . .  O
. . . . . . . . . .  I
. . . . . . . . . .  T
. . . . . . . . . .  Z
. . . . . . . . . .  S
. . . . . . . . . .
. . . . . . . . . .
. . . . . . . . . .
. . . . . . . . . .
. . . . . . . . . .
. . . . . . . . . .
. . . . . . # . . .
. . # # . # # . # .
. . . # # # # # # #
# . # # # # # # # #
    ";

    let output = "
. . . . . . . . . .
. . . . . . . . . .
. . . . . . . . . .
. . . . . . . . . .  
. . . . . . . . . .
. . . . . . . . . .
. . . . . . . . . .
. . . . . . . . . .
. . . . . . . . . .
. . . . . . . . . .
. . . . . . . . . .
. . . . . . . . . .
. . . . . . . . . .
. . . . . . . . . .
. . . . . . . . . .
. . . . . . . . . .
. . . . . . . . . .
. . . . . . . . . .
. . . . . . # . . .
. . # # . # # . # .
";

    let state = iter(SimState::from_str(input), 3);

    // Render
    println!("expected:\n{output}");
    println!("got:\n{:?}", state.get_state());

    assert!(state.equals(output));
}

#[test]
fn tspin4() {

    let input = "
. . . . . . . . . .  b2b:    0
. . . . . . . . . .  combo:  0
. . . . . . . . . .
. . . . . . . . . .  hold:  T
. . . . . . . . . .  queue:
. . . . . . . . . .  J
. . . . . . . . . .  L
. . . . . . . . . .  Z
. . . . . . . . . .  T
. . . . . . . . . .  Z
. . . . . . . . . .
. . . . . . . . . .
. . . . . . . . . .
. . . . . . . . . .
. . . . . . . . . .
. . . . . . . . . .
. . . . . . . . . .
. . . . # # # . . .
. # # # # # # # # #
# # . # # # # # # #
    ";

    let output = "
. . . . . . . . . .  b2b:    0
. . . . . . . . . .  combo:  0
. . . . . . . . . .
. . . . . . . . . .  hold:  
. . . . . . . . . .  queue:
. . . . . . . . . .  
. . . . . . . . . .  
. . . . . . . . . .  
. . . . . . . . . .  
. . . . . . . . . .  
. . . . . . . . . .
. . . . . . . . . .
. . . . . . . . . .
. . . . . . . . . .
. . . . . . . . . .
. . . . . . . . . .
. . . . . . . . . .
. . . . . . . . . .
. . . . . . . . . .
# # . . . . . . . #
    ";

    let state = iter(SimState::from_str(input), 3);

    // Render
    println!("expected:\n{output}");
    println!("got:\n{:?}", state.get_state());

    assert!(state.equals(output));
}

#[test]
fn tspin6() {

    let input = "
. . . . . . . . . .  b2b:    0
. . . . . . . . . .  combo:  0
. . . . . . . . . .
. . . . . . . . . .  hold:  T
. . . . . . . . . .  queue:
. . . . . . . . . .  Z
. . . . . . . . . .  S
. . . . . . . . . .  L
. . . . . . . . . .  J
. . . . . . . . . .  O
. . . . . . . . . .
. . . . . . . . . .
. . . . . . . . . .
. . . . . . . . . .
. . . . . . . . . .
# . . . . . . . . .
# . . . . . . . . .
# . . . . . . . # #
# . . . . . . # # #
# # . . . # # # # #
    ";

    let output = "
. . . . . . . . . .  b2b:    0
. . . . . . . . . .  combo:  0
. . . . . . . . . .
. . . . . . . . . .  hold:  T
. . . . . . . . . .  queue:
. . . . . . . . . .  L
. . . . . . . . . .  J
. . . . . . . . . .  O
. . . . . . . . . .  
. . . . . . . . . .  
. . . . . . . . . .
. . . . . . . . . .
. . . . . . . . . .
. . . . . . . . . .
. . . . . . . . . .
. . . . . . . . . .
. . . . . . . . . .
# . . . . . . . . .
# . . . . # . . . .
# . . . . # # . # #
    ";

    let state = iter(SimState::from_str(input), 3);

    // Render
    println!("expected:\n{output}");
    println!("got:\n{:?}", state.get_state());

    assert!(state.equals(output));
}

#[test]
fn tspin7() {

    let input = "
. . . . . . . . . .  b2b:    0
. . . . . . . . . .  combo:  0
. . . . . . . . . .
. . . . . . . . . .  hold:  T
. . . . . . . . . .  queue:
. . . . . . . . . .  L
. . . . . . . . . .  J
. . . . . . . . . .  O
. . . . . . . . . .  
. . . . . . . . . .  
. . . . . . . . . .
. . . . . . . . . .
. . . . . . . . . .
. . . . . . . . . .
. . . . . . . . . .
# . . . . . . . . .
# . . . . # . . . .
# . . . . # # . # #
# # # . . . # # # #
# # # # . # # # # #
    ";

    let output = "
. . . . . . . . . .  b2b:    0
. . . . . . . . . .  combo:  0
. . . . . . . . . .
. . . . . . . . . .  hold:  L
. . . . . . . . . .  queue:
. . . . . . . . . .  J
. . . . . . . . . .  O
. . . . . . . . . .  
. . . . . . . . . .  
. . . . . . . . . .  
. . . . . . . . . .
. . . . . . . . . .
. . . . . . . . . .
. . . . . . . . . .
. . . . . . . . . .
. . . . . . . . . .
. . . . . . . . . .
# . . . . . . . . .
# . . . . # . . . .
# . . . . # # . # #
    ";

    let state = iter(SimState::from_str(input), 1);

    // Render
    println!("expected:\n{output}");
    println!("got:\n{:?}", state.get_state());

    assert!(state.equals(output));
}

/// A stack with a held Z: laying the Z and then the J of the queue against
/// the stack is among the moves, and gives the board that is drawn.
#[test]
fn setup_with_the_held_piece_is_among_the_moves() {
    let input = "
. . . . . . . . . .  b2b:    0
. . . . . . . . . .  combo:  0
. . . . . . . . . .
. . . . . . . . . .  hold:  Z
. . . . . . . . . .  queue:
. . . . . . . . . .  L
. . . . . . . . . .  J
. . . . . . . . . .  O
. . . . . . . . . .  I
. . . . . . . . . #  T
. . . . . . . . . #
. . . . . . . . . #
. . . . . . . . . #
. . . # # # # . . #
. . # # # # # . # #
. # # # # # # . # #
. # # # # # # # # #
. # # # # # # # # #
. # # # # # # # # #
# # # # # # # . # #
    ";

    let output = "
. . . . . . . . . .  b2b:    0
. . . . . . . . . .  combo:  0
. . . . . . . . . .
. . . . . . . . . .  hold:  L
. . . . . . . . . .  queue:
. . . . . . . . . .  O
. . . . . . . . . .  I
. . . . . . . . . .  T
. . . . . . . . . . 
. . . . . . . . . # 
. . . . . . . . . #
. . . . . . . . . #
. . # . . . . . . #
. # # # # # # # # #
. # # # # # # # # #
. # # # # # # # # #
. # # # # # # # # #
. # # # # # # # # #
. # # # # # # # # #
# # # # # # # . # #
    ";

    let state = SimState::from_str(input);
    assert_eq!(state.get_state().hold, Some(Piece::Z));

    let moves = gen_moves(state.get_state());
    let first = moves
        .iter()
        .find(|m| m.held() && m.x == 1 && m.y == 6 && m.r == Rotation::E)
        .expect("the held piece can be laid on the left");
    assert_eq!(state.get_state().placed_piece(first), Some(Piece::Z));
    let (state, stats) = state.advance_with(first);
    assert_eq!(stats.ds, 0);
    assert_eq!(state.get_state().hold, Some(Piece::L));

    let moves = gen_moves(state.get_state());
    let second = moves
        .iter()
        .find(|m| !m.held() && m.x == 7 && m.y == 5 && m.r == Rotation::E)
        .expect("the next piece can be laid on the right");
    assert_eq!(state.get_state().placed_piece(second), Some(Piece::J));
    let (state, stats) = state.advance_with(second);
    assert_eq!(stats.ds, 0);

    println!("expected:\n{output}");
    println!("got:\n{:?}", state.get_state());
    assert!(state.equals(output));
    assert_eq!(state.get_state().hold, Some(Piece::L));
}
