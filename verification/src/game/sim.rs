//! A game to play the search against: the state with a board that
//! remembers which piece filled each cell, and the bag that the queue is
//! drawn from.
use vstd::prelude::*;

use super::advance::{lemma_full_below_step, lemma_full_rows_low, lemma_place, lemma_spec_clear};
use super::bits;
use super::bits::bit;
use super::diagram::{cells_of, drawn, is_diagram};
use super::{Board, Move, MoveStats, Piece, State, StateView};

verus! {

/// Number of pieces that the queue is filled up to.
pub const QUEUE_LEN: usize = 6;

/// A game in progress: the state that the search sees, the piece that
/// fills each cell of the board, row by row from the floor, and the bag of
/// pieces that have not been drawn yet.
pub struct SimState {
    pub state: State,
    pub v: [[Piece; 10]; 20],
    pub bag: Vec<Piece>,
}

/// A random number: the result of `rand::random::<usize>()`, which draws
/// from the generator of the thread. Nothing is claimed of the number, and
/// two calls may return different numbers.
#[verifier::external_body]
fn random_pick() -> (pick: usize) {
    rand::random::<usize>()
}

/// The seven pieces that a bag is filled with.
pub open spec fn full_bag() -> Seq<Piece> {
    seq![Piece::J, Piece::L, Piece::S, Piece::Z, Piece::T, Piece::I, Piece::O]
}

/// The bag that a piece is taken from: the bag itself, or a full bag when
/// it is empty.
pub open spec fn refilled(bag: Seq<Piece>) -> Seq<Piece> {
    if bag.len() == 0 {
        full_bag()
    } else {
        bag
    }
}

/// The position in a bag of `len` pieces that the number `pick` chooses:
/// the number itself, or the last position when the number lies behind it.
pub open spec fn chosen(pick: int, len: int) -> int {
    if pick < len {
        pick
    } else {
        len - 1
    }
}

/// The queue and the bag after the piece that `pick` chooses has gone from
/// the bag, which is filled first when it is empty, to the end of the
/// queue.
pub open spec fn taken(queue: Seq<Piece>, bag: Seq<Piece>, pick: usize) -> (Seq<Piece>, Seq<Piece>) {
    let from = refilled(bag);
    let i = chosen(pick as int, from.len() as int);
    (queue.push(from[i]), from.remove(i))
}

/// The queue and the bag after one piece has been taken for each of
/// `picks`, in turn.
pub open spec fn dealt(queue: Seq<Piece>, bag: Seq<Piece>, picks: Seq<usize>) -> (
    Seq<Piece>,
    Seq<Piece>,
)
    decreases picks.len(),
{
    if picks.len() == 0 {
        (queue, bag)
    } else {
        let before = dealt(queue, bag, picks.drop_last());
        taken(before.0, before.1, picks.last())
    }
}

/// Number of pieces that a queue of `len` pieces lacks.
pub open spec fn lacking(len: nat) -> nat {
    if len >= QUEUE_LEN {
        0
    } else {
        (QUEUE_LEN - len) as nat
    }
}

impl SimState {
    /// Whether the coloured board shows the cells of the board of the
    /// state, and the state and the bag hold pieces only.
    pub open spec fn wf(&self) -> bool {
        &&& self.state@.wf()
        &&& forall|x: int, y: int|
            0 <= x < 10 && 0 <= y < 20 ==> (#[trigger] self.v[y][x] != Piece::Empty)
                == self.state@.board.occ(x, y)
        &&& forall|i: int| 0 <= i < self.bag@.len() ==> (#[trigger] self.bag@[i]).is_tetromino()
    }

    /// Whether the game is well formed.
    pub fn is_valid(&self) -> (b: bool)
        ensures
            b == self.wf(),
    {
        if !self.state.is_valid() {
            return false;
        }
        let mut i: usize = 0;
        while i < self.bag.len()
            invariant
                i <= self.bag@.len(),
                forall|k: int| 0 <= k < i ==> (#[trigger] self.bag@[k]).is_tetromino(),
            decreases self.bag@.len() - i,
        {
            if self.bag[i] == Piece::Empty {
                assert(!self.bag@[i as int].is_tetromino());
                return false;
            }
            i += 1;
        }
        let mut y: usize = 0;
        while y < 20
            invariant
                y <= 20,
                forall|a: int, b: int|
                    0 <= a < 10 && 0 <= b < y ==> (#[trigger] self.v[b][a] != Piece::Empty)
                        == self.state@.board.occ(a, b),
            decreases 20 - y,
        {
            let mut x: usize = 0;
            while x < 10
                invariant
                    x <= 10,
                    y < 20,
                    forall|a: int, b: int|
                        0 <= a < 10 && 0 <= b < y ==> (#[trigger] self.v[b][a] != Piece::Empty)
                            == self.state@.board.occ(a, b),
                    forall|a: int|
                        0 <= a < x ==> (#[trigger] self.v[y as int][a] != Piece::Empty)
                            == self.state@.board.occ(a, y as int),
                decreases 10 - x,
            {
                let occupied = (self.state.board.v[x] >> (y as u32)) & 1 == 1;
                assert(occupied == self.state@.board.occ(x as int, y as int));
                if (self.v[y][x] != Piece::Empty) != occupied {
                    return false;
                }
                x += 1;
            }
            y += 1;
        }
        true
    }

    /// The state that the search sees.
    pub fn get_state(&self) -> (s: &State)
        ensures
            *s == self.state,
    {
        &self.state
    }

    /// Takes the piece that `pick` chooses from the bag, which is filled
    /// first when it is empty, and appends it to the queue.
    pub fn take(&mut self, pick: usize)
        requires
            old(self).wf(),
        ensures
            final(self).wf(),
            final(self).v == old(self).v,
            final(self).state@ == (StateView {
                queue: taken(old(self).state@.queue, old(self).bag@, pick).0,
                ..old(self).state@
            }),
            final(self).bag@ == taken(old(self).state@.queue, old(self).bag@, pick).1,
    {
        if self.bag.len() == 0 {
            self.bag.push(Piece::J);
            self.bag.push(Piece::L);
            self.bag.push(Piece::S);
            self.bag.push(Piece::Z);
            self.bag.push(Piece::T);
            self.bag.push(Piece::I);
            self.bag.push(Piece::O);
            assert(self.bag@ =~= full_bag());
        }
        let i: usize = if pick < self.bag.len() {
            pick
        } else {
            self.bag.len() - 1
        };
        let ghost before = self.bag@;
        let p = self.bag.remove(i);
        assert(p == before[i as int]);
        assert(p.is_tetromino());
        self.state.queue.push_back(p);
        assert forall|k: int| 0 <= k < self.bag@.len() implies (#[trigger] self.bag@[k]).is_tetromino() by {
            if k < i {
                assert(self.bag@[k] == before[k]);
            } else {
                assert(self.bag@[k] == before[k + 1]);
            }
        }
    }

    /// Fills the queue up to `QUEUE_LEN` pieces, drawn at random from the
    /// bag. The board stays as it is.
    ///
    /// Which pieces come is left to chance; but the queue and the bag are
    /// what some picks give, one for each piece that the queue lacked, each
    /// taking a piece from the bag as [`SimState::take`] does.
    pub fn draw(&mut self)
        requires
            old(self).wf(),
        ensures
            final(self).wf(),
            final(self).v == old(self).v,
            final(self).state@.board == old(self).state@.board,
            final(self).state@.hold == old(self).state@.hold,
            final(self).state@.b2b == old(self).state@.b2b,
            final(self).state@.combo == old(self).state@.combo,
            exists|picks: Seq<usize>|
                picks.len() == lacking(old(self).state@.queue.len()) && #[trigger] dealt(
                    old(self).state@.queue,
                    old(self).bag@,
                    picks,
                ) == (final(self).state@.queue, final(self).bag@),
            old(self).state@.queue.is_prefix_of(final(self).state@.queue),
            final(self).state@.queue.len() == old(self).state@.queue.len() + lacking(
                old(self).state@.queue.len(),
            ),
    {
        let ghost mut picks: Seq<usize> = Seq::empty();
        while self.state.queue.len() < QUEUE_LEN
            invariant
                self.wf(),
                self.v == old(self).v,
                self.state@.board == old(self).state@.board,
                self.state@.hold == old(self).state@.hold,
                self.state@.b2b == old(self).state@.b2b,
                self.state@.combo == old(self).state@.combo,
                old(self).state@.queue.is_prefix_of(self.state@.queue),
                self.state@.queue.len() == old(self).state@.queue.len() + picks.len(),
                picks.len() <= lacking(old(self).state@.queue.len()),
                dealt(old(self).state@.queue, old(self).bag@, picks) == (self.state@.queue, self.bag@),
            decreases QUEUE_LEN - self.state@.queue.len(),
        {
            let pick: usize = random_pick();
            let ghost before = picks;
            self.take(pick);
            proof {
                picks = before.push(pick);
                assert(picks.drop_last() =~= before);
                assert(picks.last() == pick);
            }
        }
        assert(picks.len() == lacking(old(self).state@.queue.len()));
    }
}

/// The pieces among the first `n` of a full bag that do not occur in
/// `queue`.
pub open spec fn bag_without(queue: Seq<Piece>, n: int) -> Seq<Piece>
    decreases n,
{
    if n <= 0 {
        Seq::empty()
    } else if queue.contains(full_bag()[n - 1]) {
        bag_without(queue, n - 1)
    } else {
        bag_without(queue, n - 1).push(full_bag()[n - 1])
    }
}

/// The coloured board without a piece.
fn empty_grid() -> (v: [[Piece; 10]; 20])
    ensures
        forall|x: int, y: int| 0 <= x < 10 && 0 <= y < 20 ==> #[trigger] v[y][x] == Piece::Empty,
{
    let row: [Piece; 10] = [Piece::Empty; 10];
    let v: [[Piece; 10]; 20] = [row; 20];
    assert forall|x: int, y: int| 0 <= x < 10 && 0 <= y < 20 implies #[trigger] v[y][x]
        == Piece::Empty by {
        assert(v[y] == row);
        assert(row[x] == Piece::Empty);
    }
    v
}

/// Whether `queue` holds `p`.
fn queue_holds(state: &State, p: Piece) -> (b: bool)
    ensures
        b == state@.queue.contains(p),
{
    let mut i: usize = 0;
    while i < state.queue.len()
        invariant
            i <= state.queue@.len(),
            forall|k: int| 0 <= k < i ==> state.queue@[k] != p,
        decreases state.queue@.len() - i,
    {
        if state.queue[i] == p {
            return true;
        }
        i += 1;
    }
    false
}

/// The coloured board that shows the cells of `board`, every occupied cell
/// as a cell of an O piece.
fn colour(board: &Board) -> (v: [[Piece; 10]; 20])
    requires
        board.wf(),
    ensures
        forall|x: int, y: int|
            0 <= x < 10 && 0 <= y < 20 ==> #[trigger] v[y][x] == (if board.occ(x, y) {
                Piece::O
            } else {
                Piece::Empty
            }),
{
    let mut v: [[Piece; 10]; 20] = empty_grid();
    let mut y: usize = 0;
    while y < 20
        invariant
            y <= 20,
            forall|a: int, b: int|
                0 <= a < 10 && 0 <= b < y ==> #[trigger] v[b][a] == (if board.occ(a, b) {
                    Piece::O
                } else {
                    Piece::Empty
                }),
            forall|a: int, b: int| 0 <= a < 10 && y <= b < 20 ==> #[trigger] v[b][a] == Piece::Empty,
        decreases 20 - y,
    {
        let mut x: usize = 0;
        while x < 10
            invariant
                x <= 10,
                y < 20,
                forall|a: int, b: int|
                    0 <= a < 10 && 0 <= b < y ==> #[trigger] v[b][a] == (if board.occ(a, b) {
                        Piece::O
                    } else {
                        Piece::Empty
                    }),
                forall|a: int|
                    0 <= a < x ==> #[trigger] v[y as int][a] == (if board.occ(a, y as int) {
                        Piece::O
                    } else {
                        Piece::Empty
                    }),
                forall|a: int| x <= a < 10 ==> #[trigger] v[y as int][a] == Piece::Empty,
                forall|a: int, b: int| 0 <= a < 10 && y < b < 20 ==> #[trigger] v[b][a] == Piece::Empty,
            decreases 10 - x,
        {
            if (board.v[x] >> (y as u32)) & 1 == 1 {
                v[y][x] = Piece::O;
            }
            x += 1;
        }
        y += 1;
    }
    v
}

impl SimState {
    /// A new game: an empty board and a queue drawn at random.
    pub fn new() -> (out: Self)
        ensures
            out.wf(),
            out.state@.board.is_empty(),
            out.state@.queue.len() == QUEUE_LEN,
            out.state@.hold is None,
            out.state@.b2b == 0,
            out.state@.combo == 0,
            exists|picks: Seq<usize>|
                picks.len() == QUEUE_LEN && #[trigger] dealt(Seq::empty(), Seq::empty(), picks) == (
                    out.state@.queue,
                    out.bag@,
                ),
    {
        let mut out = SimState { state: State::default(), v: empty_grid(), bag: Vec::new() };
        proof {
            bits::lemma_bit_zero();
        }
        let ghost queue0 = out.state@.queue;
        let ghost bag0 = out.bag@;
        assert(queue0 =~= Seq::<Piece>::empty());
        assert(bag0 =~= Seq::<Piece>::empty());
        out.draw();
        proof {
            let picks = choose|picks: Seq<usize>|
                picks.len() == lacking(queue0.len()) && #[trigger] dealt(queue0, bag0, picks) == (
                    out.state@.queue,
                    out.bag@,
                );
            assert(picks.len() == QUEUE_LEN);
            assert(dealt(Seq::empty(), Seq::empty(), picks) == (out.state@.queue, out.bag@));
        }
        out
    }

    /// Reads a game from the diagram of its state. The occupied cells
    /// count as cells of O pieces, and the bag holds the pieces that are
    /// not in the queue.
    pub fn from_str(s: &str) -> (out: Self)
        requires
            is_diagram(s@),
        ensures
            out.wf(),
            forall|x: int, y: int| out.state@.board.occ(x, y) == drawn(cells_of(s@), x, y),
            forall|x: int, y: int|
                0 <= x < 10 && 0 <= y < 20 ==> #[trigger] out.v[y][x] == (if drawn(
                    cells_of(s@),
                    x,
                    y,
                ) {
                    Piece::O
                } else {
                    Piece::Empty
                }),
            out.bag@ == bag_without(out.state@.queue, 7),
    {
        let state = State::from_str(s);
        let all: [Piece; 7] = [
            Piece::J,
            Piece::L,
            Piece::S,
            Piece::Z,
            Piece::T,
            Piece::I,
            Piece::O,
        ];
        assert(all@ =~= full_bag());
        let mut bag: Vec<Piece> = Vec::new();
        let mut i: usize = 0;
        while i < 7
            invariant
                i <= 7,
                all@ == full_bag(),
                bag@ == bag_without(state@.queue, i as int),
                forall|k: int| 0 <= k < bag@.len() ==> (#[trigger] bag@[k]).is_tetromino(),
            decreases 7 - i,
        {
            if !queue_holds(&state, all[i]) {
                bag.push(all[i]);
            }
            i += 1;
        }
        let v = colour(&state.board);
        SimState { state, v, bag }
    }

    /// Whether every cell that the diagram `s` draws as occupied is
    /// occupied in this game.
    pub fn equals(&self, s: &str) -> (b: bool)
        requires
            self.wf(),
        ensures
            b == (forall|x: int, y: int|
                0 <= x < 10 && 0 <= y < 20 && drawn(cells_of(s@), x, y) ==> #[trigger] self.v[y][x]
                    != Piece::Empty),
    {
        let board = Board::from_str(s);
        let mut x: usize = 0;
        while x < 10
            invariant
                x <= 10,
                forall|a: int, c: int| board.occ(a, c) == drawn(cells_of(s@), a, c),
                forall|a: int, c: int|
                    0 <= a < x && 0 <= c < 20 && drawn(cells_of(s@), a, c) ==> #[trigger] self.v[c][a]
                        != Piece::Empty,
            decreases 10 - x,
        {
            let mut y: usize = 0;
            while y < 20
                invariant
                    x < 10,
                    y <= 20,
                    forall|a: int, c: int| board.occ(a, c) == drawn(cells_of(s@), a, c),
                    forall|a: int, c: int|
                        0 <= a < x && 0 <= c < 20 && drawn(cells_of(s@), a, c)
                            ==> #[trigger] self.v[c][a] != Piece::Empty,
                    forall|c: int|
                        0 <= c < y && drawn(cells_of(s@), x as int, c) ==> #[trigger] self.v[c][x as int]
                            != Piece::Empty,
                decreases 20 - y,
            {
                assert(board.occ(x as int, y as int) == drawn(cells_of(s@), x as int, y as int));
                if (board.v[x] >> (y as u32)) & 1 == 1 && self.v[y][x] == Piece::Empty {
                    assert(board.occ(x as int, y as int));
                    return false;
                }
                y += 1;
            }
            x += 1;
        }
        true
    }

    /// Pushes `lines` rows of garbage, ten at most, in from below: rows
    /// that are filled but for the cell in column `hole`. Everything else
    /// moves up and what leaves the board through the top is lost.
    pub fn gen_garbage(&mut self, lines: usize, hole: usize)
        requires
            old(self).wf(),
            hole < 10,
        ensures
            final(self).wf(),
            final(self).bag == old(self).bag,
            final(self).state@ == (StateView {
                board: final(self).state@.board,
                ..old(self).state@
            }),
            forall|x: int, y: int|
                0 <= x < 10 && 0 <= y < 20 ==> #[trigger] final(self).v[y][x] == (if y < lines && y
                    < 10 {
                    if x == hole {
                        Piece::Empty
                    } else {
                        Piece::O
                    }
                } else if lines < 10 {
                    old(self).v[y - lines][x]
                } else {
                    old(self).v[y - 10][x]
                }),
    {
        let lines: usize = if lines < 10 {
            lines
        } else {
            10
        };
        let mut y: usize = 20;
        while y > 0
            invariant
                y <= 20,
                lines <= 10,
                hole < 10,
                forall|a: int, b: int|
                    0 <= a < 10 && 0 <= b < y ==> #[trigger] self.v[b][a] == old(self).v[b][a],
                forall|a: int, b: int|
                    0 <= a < 10 && y <= b < 20 ==> #[trigger] self.v[b][a] == (if b < lines {
                        if a == hole {
                            Piece::Empty
                        } else {
                            Piece::O
                        }
                    } else {
                        old(self).v[b - lines][a]
                    }),
                self.state == old(self).state,
                self.bag == old(self).bag,
            decreases y,
        {
            y -= 1;
            let ghost before = self.v;
            if y < lines {
                let mut row: [Piece; 10] = [Piece::O; 10];
                row[hole] = Piece::Empty;
                self.v[y] = row;
            } else {
                let row = self.v[y - lines];
                self.v[y] = row;
            }
            assert forall|a: int, b: int| 0 <= a < 10 && 0 <= b < y implies #[trigger] self.v[b][a]
                == old(self).v[b][a] by {
                assert(self.v[b] == before[b]);
            }
            assert forall|a: int, b: int| 0 <= a < 10 && y <= b < 20 implies #[trigger] self.v[b][a]
                == (if b < lines {
                if a == hole {
                    Piece::Empty
                } else {
                    Piece::O
                }
            } else {
                old(self).v[b - lines][a]
            }) by {
                if b > y {
                    assert(self.v[b] == before[b]);
                }
            }
        }
        let ghost grid = self.v;
        let ghost old_board = self.state.board;
        let mut x: usize = 0;
        while x < 10
            invariant
                x <= 10,
                lines <= 10,
                hole < 10,
                self.v == grid,
                self.bag == old(self).bag,
                self.state@ == (StateView { board: self.state@.board, ..old(self).state@ }),
                forall|a: int| x <= a < 10 ==> #[trigger] self.state.board.v[a] == old_board.v[a],
                forall|a: int| 0 <= a < x ==> #[trigger] self.state.board.v[a] < 0x10_0000,
                forall|a: int, b: int|
                    0 <= a < x && 0 <= b < 20 ==> #[trigger] self.state.board.occ(a, b) == (if b
                        < lines {
                        a != hole
                    } else {
                        old_board.occ(a, b - lines)
                    }),
            decreases 10 - x,
        {
            let col: u32 = self.state.board.v[x];
            let ghost before = self.state.board;
            let shifted: u32 = if x == hole {
                col << (lines as u32)
            } else {
                !((!col) << (lines as u32))
            };
            self.state.board.v[x] = shifted & 0xf_ffff;
            proof {
                bits::lemma_bit_shl(col, lines as u32);
                bits::lemma_bit_shl_fill(col, lines as u32);
                bits::lemma_bit_low20(shifted);
                assert forall|a: int, b: int| 0 <= a < x + 1 && 0 <= b < 20 implies #[trigger] self.state.board.occ(
                    a,
                    b,
                ) == (if b < lines {
                    a != hole
                } else {
                    old_board.occ(a, b - lines)
                }) by {
                    if a < x {
                        assert(self.state.board.v[a] == before.v[a]);
                        assert(before.occ(a, b) == (if b < lines {
                            a != hole
                        } else {
                            old_board.occ(a, b - lines)
                        }));
                    } else {
                        assert(self.state.board.v[a] == shifted & 0xf_ffff);
                        assert(col == old_board.v[a]);
                        assert(bit(shifted & 0xf_ffff, b) == bit(shifted, b));
                        if a == hole {
                            assert(bit(col << (lines as u32), b) == (lines <= b && bit(
                                col,
                                b - lines,
                            )));
                        } else {
                            assert(bit(!((!col) << (lines as u32)), b) == (b < lines || bit(
                                col,
                                b - lines,
                            )));
                        }
                    }
                }
                assert forall|a: int| 0 <= a < x + 1 implies #[trigger] self.state.board.v[a]
                    < 0x10_0000 by {
                    if a < x {
                        assert(self.state.board.v[a] == before.v[a]);
                    }
                }
                assert forall|a: int| x + 1 <= a < 10 implies #[trigger] self.state.board.v[a]
                    == old_board.v[a] by {
                    assert(self.state.board.v[a] == before.v[a]);
                }
            }
            x += 1;
        }
    }
}

/// Whether a coloured board shows the cells of `board`.
pub open spec fn shows(v: [[Piece; 10]; 20], board: Board) -> bool {
    forall|x: int, y: int|
        0 <= x < 10 && 0 <= y < 20 ==> (#[trigger] v[y][x] != Piece::Empty) == board.occ(x, y)
}

/// Whether every cell of a row holds a piece.
fn row_full(row: &[Piece; 10]) -> (b: bool)
    ensures
        b == (forall|x: int| 0 <= x < 10 ==> #[trigger] row[x] != Piece::Empty),
{
    let mut x: usize = 0;
    while x < 10
        invariant
            x <= 10,
            forall|k: int| 0 <= k < x ==> #[trigger] row[k] != Piece::Empty,
        decreases 10 - x,
    {
        if row[x] == Piece::Empty {
            return false;
        }
        x += 1;
    }
    true
}

/// Where the rows of a board go when its lines are cleared: a row that is
/// not full falls by the number of full rows below it.
pub open spec fn falls(board: Board, after: Board) -> bool {
    forall|x: int, y: int|
        0 <= x < 10 && 0 <= y < 20 && !board.full_row(y) ==> after.occ(x, y - board.full_below(y))
            == #[trigger] board.occ(x, y)
}

/// Clearing the lines of a board lets its rows fall.
proof fn lemma_falls(board: Board)
    ensures
        falls(board, board.spec_clear()),
{
    lemma_spec_clear(board);
}

/// What settling has done when it has looked at the rows below `y` of the
/// coloured board `start`, which shows `board`: the rows from `y` on are as
/// they were, each row below that is not full has fallen, and the rows
/// that have been filled show `after`.
pub open spec fn settled(
    start: [[Piece; 10]; 20],
    v: [[Piece; 10]; 20],
    board: Board,
    after: Board,
    y: int,
) -> bool {
    &&& forall|a: int, b: int| 0 <= a < 10 && y <= b < 20 ==> #[trigger] v[b][a] == start[b][a]
    &&& forall|a: int, b: int|
        0 <= a < 10 && 0 <= b < y && !board.full_row(b) ==> v[b - board.full_below(b)][a]
            == #[trigger] start[b][a]
    &&& forall|a: int, b: int|
        0 <= a < 10 && 0 <= b < y - board.full_below(y) ==> (#[trigger] v[b][a] != Piece::Empty)
            == after.occ(a, b)
}

/// A full row is passed over.
proof fn lemma_settle_full(
    start: [[Piece; 10]; 20],
    v: [[Piece; 10]; 20],
    board: Board,
    after: Board,
    y: int,
)
    requires
        0 <= y < 20,
        settled(start, v, board, after, y),
        board.full_row(y),
    ensures
        settled(start, v, board, after, y + 1),
{
    assert(board.full_below(y + 1) == board.full_below(y) + 1);
}

/// A row that is not full is moved down to where it falls.
#[verifier::rlimit(40)]
proof fn lemma_settle_move(
    start: [[Piece; 10]; 20],
    v: [[Piece; 10]; 20],
    w: [[Piece; 10]; 20],
    board: Board,
    after: Board,
    y: int,
)
    requires
        0 <= y < 20,
        settled(start, v, board, after, y),
        !board.full_row(y),
        shows(start, board),
        falls(board, after),
        0 <= y - board.full_below(y),
        forall|b: int| 0 <= b < 20 && b != y - board.full_below(y) ==> #[trigger] w[b] == v[b],
        w[y - board.full_below(y)] == v[y],
    ensures
        settled(start, w, board, after, y + 1),
{
    let dst = y - board.full_below(y);
    assert(board.full_below(y + 1) == board.full_below(y));
    lemma_full_below_step(board, 0, y);
    assert forall|a: int, b: int| 0 <= a < 10 && y + 1 <= b < 20 implies #[trigger] w[b][a]
        == start[b][a] by {
        assert(w[b] == v[b]);
    }
    assert forall|a: int, b: int|
        0 <= a < 10 && 0 <= b < y + 1 && !board.full_row(b) implies w[b - board.full_below(b)][a]
        == #[trigger] start[b][a] by {
        if b < y {
            lemma_full_below_step(board, 0, b);
            lemma_rank_below(board, b, y);
            assert(w[b - board.full_below(b)] == v[b - board.full_below(b)]);
        } else {
            assert(v[y][a] == start[y][a]);
        }
    }
    assert forall|a: int, b: int| 0 <= a < 10 && 0 <= b < dst + 1 implies (#[trigger] w[b][a]
        != Piece::Empty) == after.occ(a, b) by {
        if b < dst {
            assert(w[b] == v[b]);
        } else {
            assert(v[y][a] == start[y][a]);
            assert((start[y][a] != Piece::Empty) == board.occ(a, y));
            assert(after.occ(a, y - board.full_below(y)) == board.occ(a, y));
        }
    }
}

/// A row of a coloured board is full when the row of the board that it
/// shows is.
proof fn lemma_row_full(v: [[Piece; 10]; 20], board: Board, y: int)
    requires
        0 <= y < 20,
        shows(v, board),
    ensures
        board.full_row(y) == (forall|x: int| 0 <= x < 10 ==> #[trigger] v[y][x] != Piece::Empty),
{
    assert((v[y][0] != Piece::Empty) == board.occ(0, y));
    assert((v[y][1] != Piece::Empty) == board.occ(1, y));
    assert((v[y][2] != Piece::Empty) == board.occ(2, y));
    assert((v[y][3] != Piece::Empty) == board.occ(3, y));
    assert((v[y][4] != Piece::Empty) == board.occ(4, y));
    assert((v[y][5] != Piece::Empty) == board.occ(5, y));
    assert((v[y][6] != Piece::Empty) == board.occ(6, y));
    assert((v[y][7] != Piece::Empty) == board.occ(7, y));
    assert((v[y][8] != Piece::Empty) == board.occ(8, y));
    assert((v[y][9] != Piece::Empty) == board.occ(9, y));
    if board.full_row(y) {
        assert forall|x: int| 0 <= x < 10 implies #[trigger] v[y][x] != Piece::Empty by {
            assert((v[y][x] != Piece::Empty) == board.occ(x, y));
        }
    }
}

/// Takes the full rows out of a coloured board that shows `board` and
/// lets the rows above fall: a row that is not full ends up lower by the
/// number of full rows that were below it, and the rows that become free
/// at the top are empty. The coloured board then shows `board` with its
/// lines cleared.
fn settle(v: &mut [[Piece; 10]; 20], Ghost(board): Ghost<Board>) -> (clears: usize)
    requires
        board.wf(),
        shows(*old(v), board),
    ensures
        clears == board.full_below(20),
        shows(*final(v), board.spec_clear()),
        forall|x: int, y: int|
            0 <= x < 10 && 0 <= y < 20 && !board.full_row(y) ==> final(v)[y - board.full_below(y)][x]
                == #[trigger] old(v)[y][x],
        forall|x: int, y: int|
            0 <= x < 10 && 20 - clears <= y < 20 ==> #[trigger] final(v)[y][x] == Piece::Empty,
{
    let ghost after = board.spec_clear();
    let ghost start = *v;
    proof {
        lemma_falls(board);
        assert(board.full_below(0) == 0);
    }
    let mut clears: usize = 0;
    let mut y: usize = 0;
    while y < 20
        invariant
            y <= 20,
            clears <= y,
            clears == board.full_below(y as int),
            start == *old(v),
            shows(start, board),
            falls(board, after),
            settled(start, *v, board, after, y as int),
        decreases 20 - y,
    {
        let ghost before = *v;
        let row = v[y];
        let full = row_full(&row);
        proof {
            lemma_row_full(start, board, y as int);
            assert(row == start[y as int]) by {
                assert(row =~= start[y as int]) by {
                    assert forall|a: int| 0 <= a < 10 implies row[a] == start[y as int][a] by {
                        assert(before[y as int][a] == start[y as int][a]);
                    }
                }
            }
        }
        if full {
            proof {
                lemma_settle_full(start, *v, board, after, y as int);
            }
            clears += 1;
        } else {
            if clears != 0 {
                v[y - clears] = row;
            }
            proof {
                lemma_settle_move(start, before, *v, board, after, y as int);
            }
        }
        y += 1;
    }
    let ghost moved = *v;
    let mut k: usize = 20 - clears;
    while k < 20
        invariant
            20 - clears <= k <= 20,
            clears <= 20,
            forall|a: int, b: int| 0 <= a < 10 && 0 <= b < 20 - clears ==> #[trigger] v[b][a] == moved[b][a],
            forall|a: int, b: int| 0 <= a < 10 && 20 - clears <= b < k ==> #[trigger] v[b][a] == Piece::Empty,
        decreases 20 - k,
    {
        let ghost before = *v;
        let blank: [Piece; 10] = [Piece::Empty; 10];
        v[k] = blank;
        assert forall|a: int, b: int| 0 <= a < 10 && 0 <= b < 20 - clears implies #[trigger] v[b][a]
            == moved[b][a] by {
            assert(v[b] == before[b]);
        }
        assert forall|a: int, b: int| 0 <= a < 10 && 20 - clears <= b < k + 1 implies #[trigger] v[b][a]
            == Piece::Empty by {
            if b < k {
                assert(v[b] == before[b]);
            } else {
                assert(blank[a] == Piece::Empty);
            }
        }
        k += 1;
    }
    proof {
        assert forall|x: int, y: int| 0 <= x < 10 && 0 <= y < 20 implies (#[trigger] v[y][x]
            != Piece::Empty) == after.occ(x, y) by {
            if y < 20 - clears {
                assert(v[y][x] == moved[y][x]);
            } else {
                lemma_top_rows_empty(board, x, y);
            }
        }
        assert forall|x: int, y: int|
            0 <= x < 10 && 0 <= y < 20 && !board.full_row(y) implies v[y - board.full_below(y)][x]
            == #[trigger] old(v)[y][x] by {
            lemma_full_below_step(board, 0, y);
            lemma_rank_below(board, y, 20);
            assert(v[y - board.full_below(y)][x] == moved[y - board.full_below(y)][x]);
        }
    }
    clears
}

/// A row that is not full comes to rest below every row that lies above
/// it: it falls by the number of full rows below it, of which there are
/// fewer than there are rows between it and any row above.
proof fn lemma_rank_below(board: Board, b: int, y: int)
    requires
        0 <= b < y,
        !board.full_row(b),
    ensures
        b - board.full_below(b) < y - board.full_below(y),
{
    lemma_full_below_step(board, b + 1, y);
    assert(board.full_below(b + 1) == board.full_below(b));
}

/// The rows that clearing frees at the top of a well-formed board are
/// empty.
#[verifier::rlimit(40)]
proof fn lemma_top_rows_empty(board: Board, x: int, y: int)
    requires
        board.wf(),
        0 <= x < 10,
        20 - board.full_below(20) <= y < 20,
    ensures
        !board.spec_clear().occ(x, y),
{
    lemma_spec_clear(board);
    lemma_full_rows_low(board);
    let total = board.full_below(32);
    let after = board.spec_clear();
    if y >= 32 - total {
        assert(!after.occ(x, y));
    } else {
        let from = y + total;
        lemma_full_below_step(board, 20, from);
        lemma_full_below_step(board, from, 32);
        lemma_full_below_step(board, 0, 20);
        bits::lemma_low_column(board.v[0]);
        bits::lemma_low_column(board.v[x]);
        assert(!board.occ(0, from));
        assert(!board.full_row(from));
        assert(board.full_below(from) == total);
        assert(after.occ(x, from - board.full_below(from)) == board.occ(x, from));
    }
}

impl SimState {
    /// Plays `mov`: the piece that the move places is put on the coloured
    /// board, full rows are taken out, and the state moves on. The queue
    /// is not refilled.
    pub fn advance_with(self, mov: &Move) -> (out: (Self, MoveStats))
        requires
            self.wf(),
            self.state@.can_apply(*mov),
        ensures
            out.0.wf(),
            out.0.state@ == self.state@.apply(*mov),
            out.0.bag == self.bag,
            out.1 == self.state@.stats(*mov),
            forall|x: int, y: int|
                0 <= x < 10 && 0 <= y < 20 && !self.state@.board_placed(*mov).full_row(y)
                    ==> #[trigger] out.0.v[y - self.state@.board_placed(*mov).full_below(y)][x] == (
                if mov.covers(self.state@.placed_piece(*mov).unwrap(), x, y) {
                    self.state@.placed_piece(*mov).unwrap()
                } else {
                    self.v[y][x]
                }),
            forall|x: int, y: int|
                0 <= x < 10 && 20 - self.state@.clears(*mov) <= y < 20 ==> #[trigger] out.0.v[y][x]
                    == Piece::Empty,
    {
        let mut sim = self;
        let ghost before = sim.state@;
        let ghost grid0 = sim.v;
        let placed = match sim.state.placed_piece(mov) {
            Some(p) => p,
            None => Piece::Empty,
        };
        let ghost placed_board = before.board.spec_place(placed, *mov);
        proof {
            lemma_place(before.board, placed, *mov);
        }
        let cells = placed.cells(mov.r);
        let mut i: usize = 0;
        while i < 4
            invariant
                i <= 4,
                placed.is_tetromino(),
                before.board.fits(placed, *mov),
                forall|k: int|
                    0 <= k < 4 ==> (#[trigger] cells[k].0 as int, cells[k].1 as int) == placed.cell(
                        mov.r,
                        k,
                    ),
                forall|x: int, y: int|
                    0 <= x < 10 && 0 <= y < 20 ==> #[trigger] sim.v[y][x] == (if mov.covers_upto(
                        placed,
                        i as int,
                        x,
                        y,
                    ) {
                        placed
                    } else {
                        grid0[y][x]
                    }),
                sim.state == self.state,
                sim.bag == self.bag,
            decreases 4 - i,
        {
            assert(0 <= mov.cell_x(placed, i as int) < 10 && 0 <= mov.cell_y(placed, i as int) < 20);
            let nx: i8 = mov.x + cells[i].0;
            let ny: i8 = mov.y + cells[i].1;
            let ghost prev = sim.v;
            sim.v[ny as usize][nx as usize] = placed;
            assert forall|x: int, y: int| 0 <= x < 10 && 0 <= y < 20 implies #[trigger] sim.v[y][x]
                == (if mov.covers_upto(placed, i as int + 1, x, y) {
                placed
            } else {
                grid0[y][x]
            }) by {
                if !(x == nx && y == ny) {
                    assert(sim.v[y][x] == prev[y][x]);
                }
            }
            i += 1;
        }
        let ghost grid1 = sim.v;
        assert(shows(grid1, placed_board));
        let _ = settle(&mut sim.v, Ghost(placed_board));
        let SimState { state, v, bag } = sim;
        let (state, stats) = state.apply_move_with_stats(mov);
        proof {
            lemma_full_rows_low(placed_board);
            assert forall|x: int, y: int|
                0 <= x < 10 && 0 <= y < 20 && !placed_board.full_row(y) implies #[trigger] v[y
                - placed_board.full_below(y)][x] == (if mov.covers(placed, x, y) {
                placed
            } else {
                self.v[y][x]
            }) by {
                assert(v[y - placed_board.full_below(y)][x] == grid1[y][x]);
            }
        }
        (SimState { state, v, bag }, stats)
    }

    /// Plays `mov` and refills the queue at random.
    ///
    /// The board, the hold and the counters are what the move leads to; the
    /// queue is what the move leaves of it, filled up to `QUEUE_LEN` pieces
    /// by picks from the bag.
    pub fn advance(self, mov: &Move) -> (out: (Self, MoveStats))
        requires
            self.wf(),
            self.state@.can_apply(*mov),
        ensures
            out.0.wf(),
            out.0.state@.board == self.state@.apply(*mov).board,
            out.0.state@.hold == self.state@.apply(*mov).hold,
            out.0.state@.b2b == self.state@.apply(*mov).b2b,
            out.0.state@.combo == self.state@.apply(*mov).combo,
            exists|picks: Seq<usize>|
                picks.len() == lacking(self.state@.apply(*mov).queue.len()) && #[trigger] dealt(
                    self.state@.apply(*mov).queue,
                    self.bag@,
                    picks,
                ) == (out.0.state@.queue, out.0.bag@),
            self.state@.apply(*mov).queue.is_prefix_of(out.0.state@.queue),
            out.0.state@.queue.len() >= QUEUE_LEN,
            out.1 == self.state@.stats(*mov),
    {
        let (mut sim, stats) = self.advance_with(mov);
        sim.draw();
        (sim, stats)
    }
}

} // verus!
