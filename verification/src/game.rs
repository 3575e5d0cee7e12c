//! The game model: pieces, rotations, keystrokes, moves, boards and states.
use std::collections::VecDeque;
use vstd::prelude::*;

pub mod advance;
pub mod bits;
pub mod diagram;
pub mod eval;
pub mod movegen;
pub mod reach;
pub mod sim;

use bits::{bit, count_below, key_field, len_field};

verus! {

/// One keystroke of a move.
#[derive(Clone, Copy, PartialEq, Eq, Debug, Structural)]
pub enum Key {
    L,
    R,
    CW,
    CCW,
    Drop,
    Hold,
}

/// A tetromino kind, or the sentinel `Empty` that stands for "no piece".
#[derive(Clone, Copy, PartialEq, Eq, Debug, Structural)]
pub enum Piece {
    L,
    J,
    S,
    Z,
    T,
    I,
    O,
    Empty,
}

/// One of the four facings of a piece.
#[derive(Clone, Copy, PartialEq, Eq, Debug, Structural)]
pub enum Rotation {
    N,
    S,
    E,
    W,
}

/// A placement: the anchor cell, the facing, and the keystrokes that lead
/// there, packed into one word.
///
/// The lowest five bits of `list` hold the number of keystrokes; above them
/// each keystroke takes three bits, the first keystroke lowest.
#[derive(Clone, Copy, PartialEq, Eq, Debug, Structural)]
pub struct Move {
    pub x: i8,
    pub y: i8,
    pub r: Rotation,
    pub list: u64,
}

/// What applying a move did: the attack it sent, the lines it cleared and
/// whether the clear was a hard one, a T-spin or four lines at once.
#[derive(Clone, Copy, PartialEq, Eq, Debug, Structural)]
pub struct MoveStats {
    pub attacks: u8,
    pub ds: u8,
    pub tspin: bool,
}

/// The playing field: ten columns of bits, bit `y` of column `x` set when
/// the cell `(x, y)` is occupied, with row 0 at the floor.
#[derive(Clone, Copy, PartialEq, Eq, Debug)]
pub struct Board {
    pub v: [u32; 10],
}

/// A game position: the board, the upcoming pieces, the held piece and the
/// two streak counters.
#[derive(Debug, PartialEq)]
pub struct State {
    pub board: Board,
    pub queue: VecDeque<Piece>,
    pub hold: Option<Piece>,
    pub b2b: u8,
    pub combo: u8,
}

/// The mathematical content of a [`State`]: the queue as a sequence.
pub ghost struct StateView {
    pub board: Board,
    pub queue: Seq<Piece>,
    pub hold: Option<Piece>,
    pub b2b: u8,
    pub combo: u8,
}

/// Number of keystrokes that fit into a move's key list.
pub const LIST_CAPACITY: u64 = 19;

impl Key {
    /// The three-bit code under which a key is stored in a move's key list.
    pub open spec fn code(self) -> u64 {
        match self {
            Key::L => 1,
            Key::R => 2,
            Key::CW => 3,
            Key::CCW => 4,
            Key::Drop => 5,
            Key::Hold => 6,
        }
    }

    /// The key stored under `code`; codes outside `1..=6` stand for no key
    /// and are read as `Hold` only to make the function total.
    pub open spec fn of_code(code: u64) -> Key {
        if code == 1 {
            Key::L
        } else if code == 2 {
            Key::R
        } else if code == 3 {
            Key::CW
        } else if code == 4 {
            Key::CCW
        } else if code == 5 {
            Key::Drop
        } else {
            Key::Hold
        }
    }
}

impl Rotation {
    /// Position of the facing in the order `N, S, E, W`.
    pub open spec fn spec_index(self) -> int {
        match self {
            Rotation::N => 0,
            Rotation::S => 1,
            Rotation::E => 2,
            Rotation::W => 3,
        }
    }

    /// Position of the facing in the order `N, S, E, W`.
    pub fn index(self) -> (i: usize)
        ensures
            i == self.spec_index(),
    {
        match self {
            Rotation::N => 0,
            Rotation::S => 1,
            Rotation::E => 2,
            Rotation::W => 3,
        }
    }

    /// The facing reached by one clockwise quarter turn.
    pub open spec fn spec_cw(self) -> Rotation {
        match self {
            Rotation::N => Rotation::E,
            Rotation::E => Rotation::S,
            Rotation::S => Rotation::W,
            Rotation::W => Rotation::N,
        }
    }

    /// The facing reached by one counter-clockwise quarter turn.
    pub open spec fn spec_ccw(self) -> Rotation {
        match self {
            Rotation::N => Rotation::W,
            Rotation::W => Rotation::S,
            Rotation::S => Rotation::E,
            Rotation::E => Rotation::N,
        }
    }

    /// The facing reached by one clockwise quarter turn.
    pub fn cw(self) -> (r: Rotation)
        ensures
            r == self.spec_cw(),
    {
        match self {
            Rotation::N => Rotation::E,
            Rotation::E => Rotation::S,
            Rotation::S => Rotation::W,
            Rotation::W => Rotation::N,
        }
    }

    /// The facing reached by one counter-clockwise quarter turn.
    pub fn ccw(self) -> (r: Rotation)
        ensures
            r == self.spec_ccw(),
    {
        match self {
            Rotation::N => Rotation::W,
            Rotation::W => Rotation::S,
            Rotation::S => Rotation::E,
            Rotation::E => Rotation::N,
        }
    }
}

impl Default for Move {
    /// The move at the origin, facing north, with no keystrokes.
    fn default() -> (m: Self)
        ensures
            m == (Move { x: 0, y: 0, r: Rotation::N, list: 0 }),
    {
        Move { x: 0, y: 0, r: Rotation::N, list: 0 }
    }
}

impl Default for MoveStats {
    /// The statistics of a move that cleared nothing.
    fn default() -> (s: Self)
        ensures
            s == (MoveStats { attacks: 0, ds: 0, tspin: false }),
    {
        MoveStats { attacks: 0, ds: 0, tspin: false }
    }
}

impl Move {
    /// Number of keystrokes in the key list.
    pub open spec fn spec_list_len(&self) -> nat {
        len_field(self.list) as nat
    }

    /// A key list is well formed when its length is within capacity, each of
    /// its keystrokes holds the code of a key, the fields behind them are
    /// empty, and so are the two bits above the last field.
    pub open spec fn wf(&self) -> bool {
        &&& self.list < 0x4000_0000_0000_0000
        &&& len_field(self.list) <= LIST_CAPACITY
        &&& forall|i: u64|
            i < len_field(self.list) ==> 1 <= #[trigger] key_field(self.list, i) <= 6
        &&& forall|i: u64|
            len_field(self.list) <= i < LIST_CAPACITY ==> #[trigger] key_field(self.list, i) == 0
    }

    /// The keystrokes of the move, first to last.
    pub open spec fn keys(&self) -> Seq<Key> {
        Seq::new(self.spec_list_len(), |i: int| Key::of_code(key_field(self.list, i as u64)))
    }

    /// Whether the key list is well formed.
    pub fn is_valid(&self) -> (b: bool)
        ensures
            b == self.wf(),
    {
        let n: u64 = self.list_len();
        if n > LIST_CAPACITY || self.list >= 0x4000_0000_0000_0000 {
            return false;
        }
        let mut i: u64 = 0;
        while i < LIST_CAPACITY
            invariant
                i <= LIST_CAPACITY,
                self.list < 0x4000_0000_0000_0000,
                n == len_field(self.list),
                n <= LIST_CAPACITY,
                forall|k: u64| k < i && k < n ==> 1 <= #[trigger] key_field(self.list, k) <= 6,
                forall|k: u64| n <= k < i ==> #[trigger] key_field(self.list, k) == 0,
            decreases LIST_CAPACITY - i,
        {
            let field: u64 = (self.list >> (i * 3 + 5)) & 7;
            assert(field == key_field(self.list, i));
            if i < n {
                if field < 1 || field > 6 {
                    return false;
                }
            } else if field != 0 {
                return false;
            }
            i += 1;
        }
        true
    }

    /// The number of keystrokes in the key list.
    pub fn list_len(&self) -> (n: u64)
        ensures
            n == self.spec_list_len(),
            n == self.keys().len(),
            n < 32,
    {
        let n: u64 = self.list & 31;
        proof {
            bits::lemma_len_field_bound(self.list);
        }
        n
    }

    /// Unpacks the key list.
    pub fn parse_list(&self) -> (out: Vec<Key>)
        requires
            self.wf(),
        ensures
            out@ == self.keys(),
    {
        let n: u64 = self.list_len();
        let mut out: Vec<Key> = Vec::new();
        let mut i: u64 = 0;
        while i < n
            invariant
                self.wf(),
                n == len_field(self.list),
                i <= n,
                out@.len() == i,
                forall|j: int| 0 <= j < i ==> out@[j] == self.keys()[j],
            decreases n - i,
        {
            let shifts: u64 = i * 3 + 5;
            let val: u64 = (self.list >> shifts) & 7;
            assert(val == key_field(self.list, i));
            let key = if val == 1 {
                Key::L
            } else if val == 2 {
                Key::R
            } else if val == 3 {
                Key::CW
            } else if val == 4 {
                Key::CCW
            } else if val == 5 {
                Key::Drop
            } else {
                Key::Hold
            };
            out.push(key);
            i += 1;
        }
        assert(out@ =~= self.keys());
        out
    }
}

impl Default for Board {
    /// The empty board.
    fn default() -> (b: Self)
        ensures
            b.wf(),
            forall|x: int, y: int| !b.occ(x, y),
            forall|x: int| 0 <= x < 10 ==> b.v[x] == 0,
    {
        proof {
            bits::lemma_bit_zero();
        }
        Board { v: [0u32; 10] }
    }
}

/// The board whose column `x` is `f(x)`.
pub open spec fn board_of(f: spec_fn(int) -> u32) -> Board {
    Board { v: [f(0), f(1), f(2), f(3), f(4), f(5), f(6), f(7), f(8), f(9)] }
}

impl Board {
    /// Whether the cell `(x, y)` lies on the board and is occupied.
    pub open spec fn occ(&self, x: int, y: int) -> bool {
        0 <= x < 10 && bit(self.v[x], y)
    }

    /// A board is well formed when nothing is stored above row 19.
    pub open spec fn wf(&self) -> bool {
        forall|x: int| 0 <= x < 10 ==> #[trigger] self.v[x] < 0x10_0000
    }

    /// Whether every cell of row `y` is occupied.
    pub open spec fn full_row(&self, y: int) -> bool {
        &&& self.occ(0, y)
        &&& self.occ(1, y)
        &&& self.occ(2, y)
        &&& self.occ(3, y)
        &&& self.occ(4, y)
        &&& self.occ(5, y)
        &&& self.occ(6, y)
        &&& self.occ(7, y)
        &&& self.occ(8, y)
        &&& self.occ(9, y)
    }

    /// Number of full rows below row `n`.
    pub open spec fn full_below(&self, n: int) -> int
        decreases n,
    {
        if n <= 0 {
            0
        } else {
            self.full_below(n - 1) + if self.full_row(n - 1) { 1int } else { 0int }
        }
    }

    /// Number of occupied cells.
    pub open spec fn cell_count(&self) -> int {
        count_below(self.v[0], 32) + count_below(self.v[1], 32) + count_below(self.v[2], 32)
            + count_below(self.v[3], 32) + count_below(self.v[4], 32) + count_below(self.v[5], 32)
            + count_below(self.v[6], 32) + count_below(self.v[7], 32) + count_below(self.v[8], 32)
            + count_below(self.v[9], 32)
    }

    /// Whether the board has no occupied cell.
    pub open spec fn is_empty(&self) -> bool {
        forall|x: int| 0 <= x < 10 ==> #[trigger] self.v[x] == 0
    }
}

impl View for State {
    type V = StateView;

    open spec fn view(&self) -> StateView {
        StateView {
            board: self.board,
            queue: self.queue@,
            hold: self.hold,
            b2b: self.b2b,
            combo: self.combo,
        }
    }
}

impl StateView {
    /// A state is well formed when its board is and when neither the queue
    /// nor the hold contains the sentinel piece.
    pub open spec fn wf(self) -> bool {
        &&& self.board.wf()
        &&& forall|i: int| 0 <= i < self.queue.len() ==> (#[trigger] self.queue[i]).is_tetromino()
        &&& self.hold matches Some(p) ==> p.is_tetromino()
    }
}

impl Board {
    /// Whether two boards have the same cells occupied.
    pub fn same(&self, other: &Board) -> (b: bool)
        ensures
            b == (*self == *other),
    {
        let mut x: usize = 0;
        while x < 10
            invariant
                x <= 10,
                forall|k: int| 0 <= k < x ==> #[trigger] self.v[k] == other.v[k],
            decreases 10 - x,
        {
            if self.v[x] != other.v[x] {
                return false;
            }
            x += 1;
        }
        assert(self.v =~= other.v);
        true
    }
}

impl State {
    /// Whether the state is well formed.
    pub fn is_valid(&self) -> (b: bool)
        ensures
            b == self@.wf(),
    {
        let mut x: usize = 0;
        while x < 10
            invariant
                x <= 10,
                forall|k: int| 0 <= k < x ==> #[trigger] self.board.v[k] < 0x10_0000,
            decreases 10 - x,
        {
            if self.board.v[x] >= 0x10_0000 {
                return false;
            }
            x += 1;
        }
        let mut i: usize = 0;
        while i < self.queue.len()
            invariant
                i <= self.queue@.len(),
                forall|k: int| 0 <= k < i ==> (#[trigger] self.queue@[k]).is_tetromino(),
            decreases self.queue@.len() - i,
        {
            if self.queue[i] == Piece::Empty {
                assert(!self@.queue[i as int].is_tetromino());
                return false;
            }
            i += 1;
        }
        match self.hold {
            Some(p) => p != Piece::Empty,
            None => true,
        }
    }
}

impl Clone for State {
    fn clone(&self) -> (s: Self)
        ensures
            s@ == self@,
    {
        let queue = self.queue.clone();
        assert(queue@ =~= self.queue@);
        State { board: self.board, queue, hold: self.hold, b2b: self.b2b, combo: self.combo }
    }
}

impl Default for State {
    /// The empty board with nothing queued or held.
    fn default() -> (s: Self)
        ensures
            s@.wf(),
            s@.board.is_empty(),
            s@.queue.len() == 0,
            s@.hold is None,
            s@.b2b == 0,
            s@.combo == 0,
    {
        State { board: Board::default(), queue: VecDeque::new(), hold: None, b2b: 0, combo: 0 }
    }
}

/// The quarter turns are cyclic: a clockwise turn undoes a counter-clockwise
/// one and four turns in one direction come back to the start.
pub proof fn lemma_rotation_cycle(r: Rotation)
    ensures
        r.spec_cw().spec_ccw() == r,
        r.spec_ccw().spec_cw() == r,
        r.spec_cw().spec_cw().spec_cw().spec_cw() == r,
        r.spec_ccw().spec_ccw().spec_ccw().spec_ccw() == r,
{
}

impl Piece {
    /// Whether this is one of the seven tetromino kinds.
    pub open spec fn is_tetromino(self) -> bool {
        self != Piece::Empty
    }

    /// Position of the kind in the order `L, J, S, Z, T, I, O`.
    pub open spec fn spec_index(self) -> int {
        match self {
            Piece::L => 0,
            Piece::J => 1,
            Piece::S => 2,
            Piece::Z => 3,
            Piece::T => 4,
            Piece::I => 5,
            Piece::O => 6,
            Piece::Empty => 7,
        }
    }

    /// Cell `i` of the kind in its north facing, as an offset from the anchor.
    pub open spec fn base_cell(self, i: int) -> (int, int) {
        match self {
            Piece::L => if i == 0 { (-1, 0) } else if i == 1 { (0, 0) } else if i == 2 { (1, 0) } else { (1, 1) },
            Piece::J => if i == 0 { (-1, 0) } else if i == 1 { (0, 0) } else if i == 2 { (1, 0) } else { (-1, 1) },
            Piece::S => if i == 0 { (-1, 0) } else if i == 1 { (0, 0) } else if i == 2 { (0, 1) } else { (1, 1) },
            Piece::Z => if i == 0 { (-1, 1) } else if i == 1 { (0, 1) } else if i == 2 { (0, 0) } else { (1, 0) },
            Piece::T => if i == 0 { (-1, 0) } else if i == 1 { (0, 0) } else if i == 2 { (1, 0) } else { (0, 1) },
            Piece::I => if i == 0 { (-1, 0) } else if i == 1 { (0, 0) } else if i == 2 { (1, 0) } else { (2, 0) },
            Piece::O => if i == 0 { (0, 0) } else if i == 1 { (1, 0) } else if i == 2 { (0, 1) } else { (1, 1) },
            Piece::Empty => (0, 0),
        }
    }

    /// An offset turned from the north facing into facing `r`.
    pub open spec fn turned(p: (int, int), r: Rotation) -> (int, int) {
        match r {
            Rotation::N => (p.0, p.1),
            Rotation::S => (-p.0, -p.1),
            Rotation::E => (p.1, -p.0),
            Rotation::W => (-p.1, p.0),
        }
    }

    /// Cell `i` of the kind in facing `r`, as an offset from the anchor.
    #[verifier::opaque]
    pub open spec fn cell(self, r: Rotation, i: int) -> (int, int) {
        Piece::turned(self.base_cell(i), r)
    }

    /// Turns an offset from the north facing into facing `r`.
    pub fn rotate(p: (i8, i8), r: Rotation) -> (q: (i8, i8))
        requires
            -127 <= p.0,
            -127 <= p.1,
        ensures
            (q.0 as int, q.1 as int) == Piece::turned((p.0 as int, p.1 as int), r),
    {
        match r {
            Rotation::N => (p.0, p.1),
            Rotation::S => (-p.0, -p.1),
            Rotation::E => (p.1, -p.0),
            Rotation::W => (-p.1, p.0),
        }
    }

    /// The four cells of a tetromino in facing `r`, as offsets from the anchor.
    pub fn cells(self, r: Rotation) -> (out: [(i8, i8); 4])
        requires
            self.is_tetromino(),
        ensures
            forall|i: int|
                0 <= i < 4 ==> (#[trigger] out[i].0 as int, out[i].1 as int) == self.cell(r, i),
    {
        reveal(Piece::cell);
        let base: [(i8, i8); 4] = match self {
            Piece::L => [(-1, 0), (0, 0), (1, 0), (1, 1)],
            Piece::J => [(-1, 0), (0, 0), (1, 0), (-1, 1)],
            Piece::S => [(-1, 0), (0, 0), (0, 1), (1, 1)],
            Piece::Z => [(-1, 1), (0, 1), (0, 0), (1, 0)],
            Piece::T => [(-1, 0), (0, 0), (1, 0), (0, 1)],
            Piece::I => [(-1, 0), (0, 0), (1, 0), (2, 0)],
            _ => [(0, 0), (1, 0), (0, 1), (1, 1)],
        };
        [
            Piece::rotate(base[0], r),
            Piece::rotate(base[1], r),
            Piece::rotate(base[2], r),
            Piece::rotate(base[3], r),
        ]
    }
}

/// Every cell of a tetromino lies within two steps of its anchor.
pub proof fn lemma_cell_bounds(p: Piece, r: Rotation, i: int)
    requires
        0 <= i < 4,
    ensures
        -2 <= p.cell(r, i).0 <= 2,
        -2 <= p.cell(r, i).1 <= 2,
{
    reveal(Piece::cell);
}

} // verus!
