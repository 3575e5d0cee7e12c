//! The placement enumerator: the conflict table of a board and a piece, the
//! four move generators, and the breadth-first search over placements.
use std::collections::HashSet;
use vstd::prelude::*;
use vstd::std_specs::hash::group_hash_axioms;

use super::bits;
use super::bits::{bit, key_field, len_field};
use super::reach::{
    closed_upto, found, frontier, lemma_complete, lemma_reached_held, lemma_step, reached, replay,
    same_place, spawn, step,
};
use super::{Board, Key, Move, Piece, Rotation, State, StateView, LIST_CAPACITY};

verus! {

impl Board {
    /// Whether `piece`, anchored at `(x, y)` in facing `r`, has a cell on a
    /// blocked cell: an occupied one, one beside the board or one below the
    /// floor.
    pub open spec fn collides(&self, piece: Piece, x: int, y: int, r: Rotation) -> bool {
        ||| self.spec_occupied(x + piece.cell(r, 0).0, y + piece.cell(r, 0).1)
        ||| self.spec_occupied(x + piece.cell(r, 1).0, y + piece.cell(r, 1).1)
        ||| self.spec_occupied(x + piece.cell(r, 2).0, y + piece.cell(r, 2).1)
        ||| self.spec_occupied(x + piece.cell(r, 3).0, y + piece.cell(r, 3).1)
    }
}

/// Whether `piece` cannot stand at anchor `(x, y)` in facing `r` on `board`:
/// the anchor lies outside the ten columns and the lowest 32 rows, or the
/// piece collides there.
pub open spec fn blocked(board: Board, piece: Piece, x: int, y: int, r: Rotation) -> bool {
    !(0 <= x < 10 && 0 <= y < 32) || board.collides(piece, x, y, r)
}

/// Whether `piece` at anchor `(x, y)` in facing `r` rests: it cannot go down
/// by one row, because it would collide or leave the board through the
/// floor.
pub open spec fn rests(board: Board, piece: Piece, x: int, y: int, r: Rotation) -> bool {
    blocked(board, piece, x, y - 1, r)
}

/// For one board and one piece, a bit mask for each facing and column: bit
/// `y` is set when the piece anchored there would have a cell on a blocked
/// cell.
///
/// A table always belongs to the board and the piece that it was built
/// for: its fields are private and nothing changes them.
pub struct ConflictTable {
    v: [[u32; 10]; 4],
    piece: Piece,
    board: Ghost<Board>,
}

/// The mask of the rows at which a piece anchored in column `x` would have
/// the cell with offset `(dx, dy)` on a blocked cell.
fn cell_mask(board: &Board, x: usize, dx: i8, dy: i8) -> (m: u32)
    requires
        x < 10,
        -2 <= dx <= 2,
        -2 <= dy <= 2,
    ensures
        forall|y: int| 0 <= y < 32 ==> #[trigger] bit(m, y) == board.spec_occupied(x + dx, y + dy),
{
    let cx: i8 = x as i8 + dx;
    if cx < 0 || cx > 9 {
        proof {
            bits::lemma_bit_ones();
        }
        !0u32
    } else {
        let col: u32 = board.v[cx as usize];
        if dy < 0 {
            let d: u32 = (-dy) as u32;
            proof {
                bits::lemma_bit_shl_fill(col, d);
            }
            !((!col) << d)
        } else {
            let d: u32 = dy as u32;
            proof {
                bits::lemma_bit_shr(col, d);
            }
            col >> d
        }
    }
}

/// The conflict masks of one facing, one for each column.
fn conflict_row(board: &Board, piece: Piece, r: Rotation) -> (row: [u32; 10])
    requires
        piece.is_tetromino(),
    ensures
        forall|x: int, y: int|
            0 <= x < 10 && 0 <= y < 32 ==> bit(row[x], y) == #[trigger] board.collides(
                piece,
                x,
                y,
                r,
            ),
{
    let cells = piece.cells(r);
    let mut row: [u32; 10] = [0u32; 10];
    let mut x: usize = 0;
    while x < 10
        invariant
            x <= 10,
            forall|k: int|
                0 <= k < 4 ==> (#[trigger] cells[k].0 as int, cells[k].1 as int) == piece.cell(r, k),
            forall|c: int, y: int|
                0 <= c < x && 0 <= y < 32 ==> bit(row[c], y) == #[trigger] board.collides(
                    piece,
                    c,
                    y,
                    r,
                ),
        decreases 10 - x,
    {
        proof {
            super::lemma_cell_bounds(piece, r, 0);
            super::lemma_cell_bounds(piece, r, 1);
            super::lemma_cell_bounds(piece, r, 2);
            super::lemma_cell_bounds(piece, r, 3);
        }
        let m0: u32 = cell_mask(board, x, cells[0].0, cells[0].1);
        let m1: u32 = cell_mask(board, x, cells[1].0, cells[1].1);
        let m2: u32 = cell_mask(board, x, cells[2].0, cells[2].1);
        let m3: u32 = cell_mask(board, x, cells[3].0, cells[3].1);
        let m01: u32 = m0 | m1;
        let m23: u32 = m2 | m3;
        proof {
            bits::lemma_bit_or(m0, m1);
            bits::lemma_bit_or(m2, m3);
            bits::lemma_bit_or(m01, m23);
        }
        let ghost before = row;
        row[x] = m01 | m23;
        proof {
            assert forall|y: int| 0 <= y < 32 implies bit(row[x as int], y) == #[trigger] board.collides(
                piece,
                x as int,
                y,
                r,
            ) by {
                assert(bit(m0, y) == board.spec_occupied(x + cells[0].0, y + cells[0].1));
                assert(bit(m1, y) == board.spec_occupied(x + cells[1].0, y + cells[1].1));
                assert(bit(m2, y) == board.spec_occupied(x + cells[2].0, y + cells[2].1));
                assert(bit(m3, y) == board.spec_occupied(x + cells[3].0, y + cells[3].1));
                assert((cells[0].0 as int, cells[0].1 as int) == piece.cell(r, 0));
                assert((cells[1].0 as int, cells[1].1 as int) == piece.cell(r, 1));
                assert((cells[2].0 as int, cells[2].1 as int) == piece.cell(r, 2));
                assert((cells[3].0 as int, cells[3].1 as int) == piece.cell(r, 3));
            }
            assert forall|c: int, y: int| 0 <= c < x && 0 <= y < 32 implies bit(row[c], y)
                == #[trigger] board.collides(piece, c, y, r) by {
                assert(row[c] == before[c]);
            }
        }
        x += 1;
    }
    row
}

impl ConflictTable {
    /// The board that the table was built for.
    pub closed spec fn spec_board(&self) -> Board {
        self.board@
    }

    /// The piece that the table was built for.
    pub closed spec fn spec_piece(&self) -> Piece {
        self.piece
    }

    /// What holds of every table: the piece is a tetromino, and the masks
    /// say, for every facing and every anchor in the lowest 32 rows, whether
    /// the piece collides there.
    #[verifier::type_invariant]
    pub closed spec fn wf(&self) -> bool {
        &&& self.piece.is_tetromino()
        &&& forall|r: Rotation, x: int, y: int|
            0 <= x < 10 && 0 <= y < 32 ==> bit(self.v[r.spec_index()][x], y)
                == #[trigger] self.board@.collides(self.piece, x, y, r)
    }

    /// Whether the piece cannot stand at anchor `(x, y)` in facing `r`: the
    /// anchor lies outside the table or the piece collides there.
    pub open spec fn blocked(&self, x: int, y: int, r: Rotation) -> bool {
        blocked(self.spec_board(), self.spec_piece(), x, y, r)
    }

    /// Whether the piece at anchor `(x, y)` in facing `r` rests: it cannot
    /// go down by one row.
    pub open spec fn rests(&self, x: int, y: int, r: Rotation) -> bool {
        rests(self.spec_board(), self.spec_piece(), x, y, r)
    }

    /// The piece that the table was built for.
    pub fn piece(&self) -> (p: Piece)
        ensures
            p == self.spec_piece(),
            p.is_tetromino(),
    {
        proof {
            use_type_invariant(self);
        }
        self.piece
    }

    /// Builds the conflict table of `board` and `piece`.
    pub fn from(board: &Board, piece: Piece) -> (t: Self)
        requires
            piece.is_tetromino(),
        ensures
            t.spec_piece() == piece,
            t.spec_board() == *board,
    {
        let n = conflict_row(board, piece, Rotation::N);
        let s = conflict_row(board, piece, Rotation::S);
        let e = conflict_row(board, piece, Rotation::E);
        let w = conflict_row(board, piece, Rotation::W);
        ConflictTable { v: [n, s, e, w], piece, board: Ghost(*board) }
    }

    /// Whether the piece placed by `mov` rests on the stack or the floor:
    /// one row further down it would collide.
    pub fn touches(&self, mov: &Move) -> (b: bool)
        requires
            0 <= mov.x < 10,
            0 <= mov.y < 32,
        ensures
            b == self.rests(mov.x as int, mov.y as int, mov.r),
    {
        proof {
            use_type_invariant(self);
        }
        if mov.y == 0 {
            return true;
        }
        let col: u32 = self.v[mov.r.index()][mov.x as usize];
        (col >> ((mov.y - 1) as u32)) & 1 == 1
    }

    /// Whether the piece placed by `mov` collides, or lies outside the table.
    pub fn conflicts(&self, mov: &Move) -> (b: bool)
        ensures
            b == self.blocked(mov.x as int, mov.y as int, mov.r),
    {
        proof {
            use_type_invariant(self);
        }
        if mov.x >= 0 && mov.x < 10 && mov.y >= 0 && mov.y < 32 {
            let col: u32 = self.v[mov.r.index()][mov.x as usize];
            (col >> (mov.y as u32)) & 1 == 1
        } else {
            true
        }
    }
}

impl Move {
    /// The canonical key of the placement: one number for each anchor and
    /// facing, whatever the keystrokes.
    pub open spec fn spec_canon(&self) -> int {
        self.y * 65536 + self.x * 256 + self.r.spec_index()
    }

    /// The move with `key` appended to its key list.
    pub open spec fn pushed(self, key: Key) -> Move {
        Move {
            list: (self.list + (key.code() << ((len_field(self.list) * 3 + 5) as u64)) + 1) as u64,
            ..self
        }
    }

    /// The canonical key of the placement, by which visited placements are
    /// told apart.
    pub fn canon(&self) -> (c: u32)
        requires
            0 <= self.x,
            0 <= self.y,
        ensures
            c == self.spec_canon(),
    {
        (self.y as u32) * 65536 + (self.x as u32) * 256 + (self.r.index() as u32)
    }

    /// Whether the key list has room for another keystroke.
    pub fn list_has_space(&self) -> (b: bool)
        ensures
            b == (self.spec_list_len() < LIST_CAPACITY),
    {
        self.list_len() < LIST_CAPACITY
    }

    /// Appends `key` to the key list.
    pub fn add_key(&mut self, key: &Key)
        requires
            old(self).wf(),
            old(self).spec_list_len() < LIST_CAPACITY,
        ensures
            *final(self) == old(self).pushed(*key),
            final(self).wf(),
            final(self).keys() == old(self).keys().push(*key),
    {
        let v: u64 = match key {
            Key::L => 1,
            Key::R => 2,
            Key::CW => 3,
            Key::CCW => 4,
            Key::Drop => 5,
            Key::Hold => 6,
        };
        let index: u64 = self.list_len();
        proof {
            bits::lemma_push_field(self.list, index, v);
            lemma_pushed(*self, *key);
        }
        self.list = self.list + (v << (index * 3 + 5));
        self.list = self.list + 1;
    }
}

/// Appending a key to a well-formed list with room gives a well-formed
/// list that ends in the key and is otherwise unchanged.
pub proof fn lemma_pushed(m: Move, key: Key)
    requires
        m.wf(),
        m.spec_list_len() < LIST_CAPACITY,
    ensures
        m.pushed(key).wf(),
        m.pushed(key).keys() == m.keys().push(key),
        m.pushed(key).spec_list_len() == m.spec_list_len() + 1,
        m.pushed(key).x == m.x,
        m.pushed(key).y == m.y,
        m.pushed(key).r == m.r,
{
    let n = len_field(m.list);
    let p = m.pushed(key);
    bits::lemma_push_field(m.list, n, key.code());
    assert(len_field(p.list) == n + 1);
    assert forall|i: u64| i < len_field(p.list) implies 1 <= #[trigger] key_field(p.list, i) <= 6 by {
        if i != n {
            assert(key_field(p.list, i) == key_field(m.list, i));
        }
    }
    assert forall|i: u64| len_field(p.list) <= i < LIST_CAPACITY implies #[trigger] key_field(
        p.list,
        i,
    ) == 0 by {
        assert(key_field(p.list, i) == key_field(m.list, i));
    }
    assert forall|i: int| 0 <= i < p.keys().len() implies p.keys()[i] == m.keys().push(key)[i] by {
        if i != n {
            assert(key_field(p.list, i as u64) == key_field(m.list, i as u64));
        }
    }
    assert(p.keys() =~= m.keys().push(key));
}

/// Two placements with the same canonical key have the same anchor and
/// facing.
pub proof fn lemma_canon_injective(a: Move, b: Move)
    requires
        0 <= a.x,
        0 <= b.x,
        a.spec_canon() == b.spec_canon(),
    ensures
        a.x == b.x,
        a.y == b.y,
        a.r == b.r,
{
}

impl Board {
    /// Number of free cells straight below `(x, y)` before the stack or the
    /// floor.
    pub open spec fn spec_distance(&self, x: int, y: int) -> int
        decreases y,
    {
        if y <= 0 || self.occ(x, y - 1) {
            0
        } else {
            1 + self.spec_distance(x, y - 1)
        }
    }

    /// Number of rows that `piece`, anchored at `(x, y)` in facing `r`, can
    /// go straight down before it collides.
    pub open spec fn drop_distance(&self, piece: Piece, x: int, y: int, r: Rotation) -> int
        decreases y,
    {
        if y <= 0 || self.collides(piece, x, y - 1, r) {
            0
        } else {
            1 + self.drop_distance(piece, x, y - 1, r)
        }
    }

    /// How far the point `(x, y)` is above the stack or the floor: the
    /// number of free cells straight below it.
    pub fn distance_to_floor(&self, x: i8, y: i8) -> (d: i8)
        requires
            0 <= x < 10,
            0 <= y,
        ensures
            d == self.spec_distance(x as int, y as int),
            0 <= d <= y,
    {
        let col: u32 = self.v[x as usize];
        let mut d: i8 = 0;
        while d < y && !(y - 1 - d < 32 && (col >> ((y - 1 - d) as u32)) & 1 == 1)
            invariant
                0 <= d <= y,
                0 <= x < 10,
                col == self.v[x as int],
                self.spec_distance(x as int, y as int) == d + self.spec_distance(x as int, y - d),
            decreases y - d,
        {
            assert(!self.occ(x as int, y - d - 1));
            d += 1;
        }
        assert(d == y || self.occ(x as int, y - d - 1));
        d
    }
}

/// The smaller of two distances.
fn lower(a: i8, b: i8) -> (m: i8)
    ensures
        m == if a <= b { a } else { b },
{
    if a <= b {
        a
    } else {
        b
    }
}

/// Whether one of four cells, given as offsets from `(x, y)`, is blocked.
pub open spec fn any_blocked(b: Board, c: Seq<(int, int)>, x: int, y: int) -> bool {
    ||| b.spec_occupied(x + c[0].0, y + c[0].1)
    ||| b.spec_occupied(x + c[1].0, y + c[1].1)
    ||| b.spec_occupied(x + c[2].0, y + c[2].1)
    ||| b.spec_occupied(x + c[3].0, y + c[3].1)
}

/// Number of rows that four cells, given as offsets from `(x, y)`, can go
/// straight down together before one of them is blocked.
pub open spec fn fall(b: Board, c: Seq<(int, int)>, x: int, y: int) -> int
    decreases y,
{
    if y <= 0 || any_blocked(b, c, x, y - 1) {
        0
    } else {
        1 + fall(b, c, x, y - 1)
    }
}

/// A distance to the floor is never negative.
proof fn lemma_distance_nonneg(b: Board, x: int, y: int)
    ensures
        0 <= b.spec_distance(x, y),
    decreases y,
{
    if !(y <= 0 || b.occ(x, y - 1)) {
        lemma_distance_nonneg(b, x, y - 1);
    }
}

/// Four free cells, one of them in the anchor's row or below, can go down
/// together exactly as far as the one that is closest to the stack or the
/// floor.
proof fn lemma_fall(b: Board, c: Seq<(int, int)>, x: int, y: int)
    requires
        c.len() == 4,
        !any_blocked(b, c, x, y),
        c[0].1 <= 0 || c[1].1 <= 0 || c[2].1 <= 0 || c[3].1 <= 0,
    ensures
        fall(b, c, x, y) <= b.spec_distance(x + c[0].0, y + c[0].1),
        fall(b, c, x, y) <= b.spec_distance(x + c[1].0, y + c[1].1),
        fall(b, c, x, y) <= b.spec_distance(x + c[2].0, y + c[2].1),
        fall(b, c, x, y) <= b.spec_distance(x + c[3].0, y + c[3].1),
        exists|i: int|
            0 <= i < 4 && fall(b, c, x, y) == b.spec_distance(x + c[i].0, y + #[trigger] c[i].1),
    decreases y,
{
    lemma_distance_nonneg(b, x + c[0].0, y + c[0].1);
    lemma_distance_nonneg(b, x + c[1].0, y + c[1].1);
    lemma_distance_nonneg(b, x + c[2].0, y + c[2].1);
    lemma_distance_nonneg(b, x + c[3].0, y + c[3].1);
    if y <= 0 {
        let i = if c[0].1 <= 0 {
            0int
        } else if c[1].1 <= 0 {
            1int
        } else if c[2].1 <= 0 {
            2int
        } else {
            3int
        };
        assert(b.spec_distance(x + c[i].0, y + c[i].1) == 0);
    } else if any_blocked(b, c, x, y - 1) {
        let i = if b.spec_occupied(x + c[0].0, y - 1 + c[0].1) {
            0int
        } else if b.spec_occupied(x + c[1].0, y - 1 + c[1].1) {
            1int
        } else if b.spec_occupied(x + c[2].0, y - 1 + c[2].1) {
            2int
        } else {
            3int
        };
        assert(b.spec_distance(x + c[i].0, y + c[i].1) == 0);
    } else {
        lemma_fall(b, c, x, y - 1);
        let i = choose|i: int|
            0 <= i < 4 && fall(b, c, x, y - 1) == b.spec_distance(x + c[i].0, y - 1 + #[trigger] c[i].1);
        assert(b.spec_distance(x + c[i].0, y + c[i].1) == 1 + b.spec_distance(
            x + c[i].0,
            y - 1 + c[i].1,
        ));
        assert(b.spec_distance(x + c[0].0, y + c[0].1) == 1 + b.spec_distance(
            x + c[0].0,
            y - 1 + c[0].1,
        ));
        assert(b.spec_distance(x + c[1].0, y + c[1].1) == 1 + b.spec_distance(
            x + c[1].0,
            y - 1 + c[1].1,
        ));
        assert(b.spec_distance(x + c[2].0, y + c[2].1) == 1 + b.spec_distance(
            x + c[2].0,
            y - 1 + c[2].1,
        ));
        assert(b.spec_distance(x + c[3].0, y + c[3].1) == 1 + b.spec_distance(
            x + c[3].0,
            y - 1 + c[3].1,
        ));
    }
}

impl Piece {
    /// The four cells of the piece in facing `r`, as a sequence.
    pub open spec fn cell_seq(self, r: Rotation) -> Seq<(int, int)> {
        seq![self.cell(r, 0), self.cell(r, 1), self.cell(r, 2), self.cell(r, 3)]
    }
}

/// Every tetromino has its anchor among its cells.
pub proof fn lemma_anchor_cell(piece: Piece, r: Rotation)
    requires
        piece.is_tetromino(),
    ensures
        piece.cell(r, 0).1 <= 0 || piece.cell(r, 1).1 <= 0 || piece.cell(r, 2).1 <= 0 || piece.cell(
            r,
            3,
        ).1 <= 0,
{
    reveal(Piece::cell);
    let i = if piece == Piece::O {
        0int
    } else if piece == Piece::Z {
        2int
    } else {
        1int
    };
    assert(piece.cell(r, i) == (0int, 0int));
}

/// The drop distance of a piece is the fall of its four cells.
proof fn lemma_drop_is_fall(b: Board, piece: Piece, x: int, y: int, r: Rotation)
    ensures
        b.drop_distance(piece, x, y, r) == fall(b, piece.cell_seq(r), x, y),
    decreases y,
{
    let c = piece.cell_seq(r);
    assert(c[0] == piece.cell(r, 0) && c[1] == piece.cell(r, 1) && c[2] == piece.cell(r, 2) && c[3]
        == piece.cell(r, 3));
    assert(any_blocked(b, c, x, y - 1) == b.collides(piece, x, y - 1, r));
    if y > 0 && !b.collides(piece, x, y - 1, r) {
        lemma_drop_is_fall(b, piece, x, y - 1, r);
    }
}

/// The least of four distances.
pub open spec fn least(a: int, b: int, c: int, d: int) -> int {
    let ab = if a <= b {
        a
    } else {
        b
    };
    let cd = if c <= d {
        c
    } else {
        d
    };
    if ab <= cd {
        ab
    } else {
        cd
    }
}

/// A piece that does not collide can go down exactly as far as the cell of
/// it that is closest to the stack or the floor.
pub proof fn lemma_drop_distance(b: Board, piece: Piece, x: int, y: int, r: Rotation)
    requires
        piece.is_tetromino(),
        !b.collides(piece, x, y, r),
    ensures
        b.drop_distance(piece, x, y, r) == least(
            b.spec_distance(x + piece.cell(r, 0).0, y + piece.cell(r, 0).1),
            b.spec_distance(x + piece.cell(r, 1).0, y + piece.cell(r, 1).1),
            b.spec_distance(x + piece.cell(r, 2).0, y + piece.cell(r, 2).1),
            b.spec_distance(x + piece.cell(r, 3).0, y + piece.cell(r, 3).1),
        ),
        0 <= b.drop_distance(piece, x, y, r),
        b.drop_distance(piece, x, y, r) <= y || y < 0,
{
    let c = piece.cell_seq(r);
    assert(c[0] == piece.cell(r, 0) && c[1] == piece.cell(r, 1) && c[2] == piece.cell(r, 2) && c[3]
        == piece.cell(r, 3));
    lemma_anchor_cell(piece, r);
    lemma_drop_is_fall(b, piece, x, y, r);
    assert(any_blocked(b, c, x, y) == b.collides(piece, x, y, r));
    lemma_fall(b, c, x, y);
    lemma_fall_bounds(b, c, x, y);
}

/// Nothing falls further than to the floor.
proof fn lemma_fall_bounds(b: Board, c: Seq<(int, int)>, x: int, y: int)
    ensures
        0 <= fall(b, c, x, y),
        fall(b, c, x, y) <= y || y < 0,
    decreases y,
{
    if !(y <= 0 || any_blocked(b, c, x, y - 1)) {
        lemma_fall_bounds(b, c, x, y - 1);
    }
}

impl Move {
    /// The move after a soft drop: the piece of the conflict-free move goes
    /// straight down until it rests, and `Drop` is appended. There is no
    /// such move when the piece rests already.
    pub open spec fn spec_drop(self, board: Board, piece: Piece) -> Option<Move> {
        let d = board.drop_distance(piece, self.x as int, self.y as int, self.r);
        if d == 0 {
            None
        } else {
            Some(Move { y: (self.y - d) as i8, ..self }.pushed(Key::Drop))
        }
    }

    /// The move after a shift by one column to the right (`dx == 1`) or to
    /// the left (`dx == -1`), with `R` or `L` appended. There is no such move
    /// when the piece would leave the board or collide.
    pub open spec fn spec_shift(self, dx: int, board: Board, piece: Piece) -> Option<Move> {
        if blocked(board, piece, self.x + dx, self.y as int, self.r) {
            None
        } else {
            Some(Move { x: (self.x + dx) as i8, ..self }.pushed(if dx > 0 { Key::R } else { Key::L }))
        }
    }

    /// The move turned into facing `to` with kick candidate `i` applied.
    pub open spec fn kicked(self, piece: Piece, to: Rotation, i: int) -> Move {
        Move {
            x: (self.x + Rotation::spec_kick(piece, self.r, to, i).0) as i8,
            y: (self.y + Rotation::spec_kick(piece, self.r, to, i).1) as i8,
            r: to,
            list: self.list,
        }
    }

    /// The move turned into facing `to` by the first kick candidate from `i`
    /// on that does not collide, if there is one.
    pub open spec fn first_kick(self, board: Board, piece: Piece, to: Rotation, i: int) -> Option<
        Move,
    >
        decreases 5 - i,
    {
        if i >= 5 {
            None
        } else {
            let m = self.kicked(piece, to, i);
            if !blocked(board, piece, m.x as int, m.y as int, to) {
                Some(m)
            } else {
                self.first_kick(board, piece, to, i + 1)
            }
        }
    }

    /// The move turned into facing `to`: the first of the five kick
    /// candidates that does not collide decides where the piece ends up.
    pub open spec fn spec_rotate(self, board: Board, piece: Piece, to: Rotation) -> Option<Move> {
        self.first_kick(board, piece, to, 0)
    }

    /// The move after a clockwise turn, with `CW` appended.
    pub open spec fn spec_cw(self, board: Board, piece: Piece) -> Option<Move> {
        match self.spec_rotate(board, piece, self.r.spec_cw()) {
            Some(m) => Some(m.pushed(Key::CW)),
            None => None,
        }
    }

    /// The move after a counter-clockwise turn, with `CCW` appended.
    pub open spec fn spec_ccw(self, board: Board, piece: Piece) -> Option<Move> {
        match self.spec_rotate(board, piece, self.r.spec_ccw()) {
            Some(m) => Some(m.pushed(Key::CCW)),
            None => None,
        }
    }

    /// Whether a generator may be applied to the move: its key list is well
    /// formed and has room, and its anchor lies in the table.
    pub open spec fn extendable(self) -> bool {
        &&& self.wf()
        &&& self.spec_list_len() < LIST_CAPACITY
        &&& 0 <= self.x < 10
        &&& 0 <= self.y < 32
    }

    /// Soft drop: lets the piece fall until it rests. Returns nothing when
    /// it rests already.
    #[verifier::rlimit(40)]
    pub fn drop(&self, board: &Board, piece: Piece) -> (out: Option<Move>)
        requires
            self.extendable(),
            piece.is_tetromino(),
            !board.collides(piece, self.x as int, self.y as int, self.r),
        ensures
            out == self.spec_drop(*board, piece),
    {
        let cells = piece.cells(self.r);
        let ghost c0 = piece.cell(self.r, 0);
        let ghost c1 = piece.cell(self.r, 1);
        let ghost c2 = piece.cell(self.r, 2);
        let ghost c3 = piece.cell(self.r, 3);
        proof {
            lemma_drop_distance(*board, piece, self.x as int, self.y as int, self.r);
            super::lemma_cell_bounds(piece, self.r, 0);
            super::lemma_cell_bounds(piece, self.r, 1);
            super::lemma_cell_bounds(piece, self.r, 2);
            super::lemma_cell_bounds(piece, self.r, 3);
            assert((cells[0].0 as int, cells[0].1 as int) == c0);
            assert((cells[1].0 as int, cells[1].1 as int) == c1);
            assert((cells[2].0 as int, cells[2].1 as int) == c2);
            assert((cells[3].0 as int, cells[3].1 as int) == c3);
            assert(!board.spec_occupied(self.x + c0.0, self.y + c0.1));
            assert(!board.spec_occupied(self.x + c1.0, self.y + c1.1));
            assert(!board.spec_occupied(self.x + c2.0, self.y + c2.1));
            assert(!board.spec_occupied(self.x + c3.0, self.y + c3.1));
        }
        let d0: i8 = board.distance_to_floor(self.x + cells[0].0, self.y + cells[0].1);
        let d1: i8 = board.distance_to_floor(self.x + cells[1].0, self.y + cells[1].1);
        let d2: i8 = board.distance_to_floor(self.x + cells[2].0, self.y + cells[2].1);
        let d3: i8 = board.distance_to_floor(self.x + cells[3].0, self.y + cells[3].1);
        let dy: i8 = lower(lower(d0, d1), lower(d2, d3));
        assert(dy == board.drop_distance(piece, self.x as int, self.y as int, self.r));
        if dy == 0 {
            None
        } else {
            let mut nmov = Move { x: self.x, y: self.y - dy, r: self.r, list: self.list };
            nmov.add_key(&Key::Drop);
            Some(nmov)
        }
    }

    /// Shifts the piece by one column, to the right when `dx` is 1 and to
    /// the left when it is -1. Returns nothing when the piece would leave
    /// the board or collide.
    pub fn shift(&self, dx: i8, conflict_table: &ConflictTable) -> (out: Option<Move>)
        requires
            dx == -1 || dx == 1,
            self.extendable(),
        ensures
            out == self.spec_shift(
                dx as int,
                conflict_table.spec_board(),
                conflict_table.spec_piece(),
            ),
    {
        if dx == -1 && self.x == 0 {
            return None;
        }
        if dx == 1 && self.x == 9 {
            return None;
        }
        let mut nmov = Move { x: self.x + dx, y: self.y, r: self.r, list: self.list };
        if !conflict_table.conflicts(&nmov) {
            nmov.add_key(if dx > 0 { &Key::R } else { &Key::L });
            Some(nmov)
        } else {
            None
        }
    }

    /// Turns the piece into facing `to`, trying the kick candidates in
    /// order. Returns nothing when every candidate collides.
    pub fn rotate(&self, conflict_table: &ConflictTable, from: Rotation, to: Rotation) -> (out:
        Option<Move>)
        requires
            from == self.r,
            0 <= self.x < 10,
            0 <= self.y < 32,
        ensures
            out == self.spec_rotate(conflict_table.spec_board(), conflict_table.spec_piece(), to),
    {
        let kicks = Rotation::kicktable(conflict_table.piece, from, to);
        let mut i: usize = 0;
        while i < 5
            invariant
                i <= 5,
                from == self.r,
                0 <= self.x < 10,
                0 <= self.y < 32,
                forall|k: int|
                    0 <= k < 5 ==> (#[trigger] kicks[k].0 as int, kicks[k].1 as int)
                        == Rotation::spec_kick(conflict_table.piece, from, to, k),
                forall|k: int| 0 <= k < 5 ==> -4 <= #[trigger] kicks[k].0 <= 4 && -4 <= kicks[k].1 <= 4,
                self.spec_rotate(conflict_table.board@, conflict_table.piece, to) == self.first_kick(
                    conflict_table.board@,
                    conflict_table.piece,
                    to,
                    i as int,
                ),
            decreases 5 - i,
        {
            let nmov = Move {
                x: self.x + kicks[i].0,
                y: self.y + kicks[i].1,
                r: to,
                list: self.list,
            };
            assert(nmov == self.kicked(conflict_table.piece, to, i as int)) by {
                assert((kicks[i as int].0 as int, kicks[i as int].1 as int) == Rotation::spec_kick(
                    conflict_table.piece,
                    from,
                    to,
                    i as int,
                ));
            }
            if !conflict_table.conflicts(&nmov) {
                return Some(nmov);
            }
            i += 1;
        }
        None
    }

    /// Turns the piece clockwise. Returns nothing when every kick candidate
    /// collides.
    pub fn cw(&self, conflict_table: &ConflictTable) -> (out: Option<Move>)
        requires
            self.extendable(),
        ensures
            out == self.spec_cw(conflict_table.spec_board(), conflict_table.spec_piece()),
    {
        match self.rotate(conflict_table, self.r, self.r.cw()) {
            Some(mov) => {
                let mut mov = mov;
                proof {
                    lemma_first_kick(
                        *self,
                        conflict_table.board@,
                        conflict_table.piece,
                        self.r.spec_cw(),
                        0,
                    );
                }
                mov.add_key(&Key::CW);
                Some(mov)
            },
            None => None,
        }
    }

    /// Turns the piece counter-clockwise. Returns nothing when every kick
    /// candidate collides.
    pub fn ccw(&self, conflict_table: &ConflictTable) -> (out: Option<Move>)
        requires
            self.extendable(),
        ensures
            out == self.spec_ccw(conflict_table.spec_board(), conflict_table.spec_piece()),
    {
        match self.rotate(conflict_table, self.r, self.r.ccw()) {
            Some(mov) => {
                let mut mov = mov;
                proof {
                    lemma_first_kick(
                        *self,
                        conflict_table.board@,
                        conflict_table.piece,
                        self.r.spec_ccw(),
                        0,
                    );
                }
                mov.add_key(&Key::CCW);
                Some(mov)
            },
            None => None,
        }
    }
}

/// A kicked move keeps the key list and does not collide.
pub proof fn lemma_first_kick(m: Move, board: Board, piece: Piece, to: Rotation, i: int)
    requires
        0 <= i,
    ensures
        m.first_kick(board, piece, to, i) matches Some(k) ==> {
            &&& k.list == m.list
            &&& k.r == to
            &&& !blocked(board, piece, k.x as int, k.y as int, to)
        },
    decreases 5 - i,
{
    if i < 5 {
        lemma_first_kick(m, board, piece, to, i + 1);
    }
}

impl Rotation {
    /// The five offsets of `piece` in `rotation` from which its wall kicks
    /// are derived.
    pub open spec fn spec_offsets(piece: Piece, rotation: Rotation) -> Seq<(int, int)> {
        match piece {
            Piece::O => match rotation {
                Rotation::N => seq![(0, 0), (0, 0), (0, 0), (0, 0), (0, 0)],
                Rotation::E => seq![(0, -1), (0, -1), (0, -1), (0, -1), (0, -1)],
                Rotation::S => seq![(-1, -1), (-1, -1), (-1, -1), (-1, -1), (-1, -1)],
                Rotation::W => seq![(-1, 0), (-1, 0), (-1, 0), (-1, 0), (-1, 0)],
            },
            Piece::I => match rotation {
                Rotation::N => seq![(0, 0), (-1, 0), (2, 0), (-1, 0), (2, 0)],
                Rotation::E => seq![(-1, 0), (0, 0), (0, 0), (0, 1), (0, -2)],
                Rotation::S => seq![(-1, 1), (1, 1), (-2, 1), (1, 0), (-2, 0)],
                Rotation::W => seq![(0, 1), (0, 1), (0, 1), (0, -1), (0, 2)],
            },
            _ => match rotation {
                Rotation::N => seq![(0, 0), (0, 0), (0, 0), (0, 0), (0, 0)],
                Rotation::E => seq![(0, 0), (1, 0), (1, -1), (0, 2), (1, 2)],
                Rotation::S => seq![(0, 0), (0, 0), (0, 0), (0, 0), (0, 0)],
                Rotation::W => seq![(0, 0), (-1, 0), (-1, -1), (0, 2), (-1, 2)],
            },
        }
    }

    /// Candidate `i` of the wall kick of `piece` from facing `from` to
    /// facing `to`: the difference of the two facings' offsets.
    pub open spec fn spec_kick(piece: Piece, from: Rotation, to: Rotation, i: int) -> (int, int) {
        (
            Rotation::spec_offsets(piece, from)[i].0 - Rotation::spec_offsets(piece, to)[i].0,
            Rotation::spec_offsets(piece, from)[i].1 - Rotation::spec_offsets(piece, to)[i].1,
        )
    }

    /// The five offsets of `piece` in `rotation` from which its wall kicks
    /// are derived.
    pub fn offsets(piece: Piece, rotation: Rotation) -> (out: [(i8, i8); 5])
        ensures
            forall|i: int|
                0 <= i < 5 ==> (#[trigger] out[i].0 as int, out[i].1 as int) == Rotation::spec_offsets(
                    piece,
                    rotation,
                )[i],
    {
        match piece {
            Piece::O => match rotation {
                Rotation::N => [(0, 0), (0, 0), (0, 0), (0, 0), (0, 0)],
                Rotation::E => [(0, -1), (0, -1), (0, -1), (0, -1), (0, -1)],
                Rotation::S => [(-1, -1), (-1, -1), (-1, -1), (-1, -1), (-1, -1)],
                Rotation::W => [(-1, 0), (-1, 0), (-1, 0), (-1, 0), (-1, 0)],
            },
            Piece::I => match rotation {
                Rotation::N => [(0, 0), (-1, 0), (2, 0), (-1, 0), (2, 0)],
                Rotation::E => [(-1, 0), (0, 0), (0, 0), (0, 1), (0, -2)],
                Rotation::S => [(-1, 1), (1, 1), (-2, 1), (1, 0), (-2, 0)],
                Rotation::W => [(0, 1), (0, 1), (0, 1), (0, -1), (0, 2)],
            },
            _ => match rotation {
                Rotation::N => [(0, 0), (0, 0), (0, 0), (0, 0), (0, 0)],
                Rotation::E => [(0, 0), (1, 0), (1, -1), (0, 2), (1, 2)],
                Rotation::S => [(0, 0), (0, 0), (0, 0), (0, 0), (0, 0)],
                Rotation::W => [(0, 0), (-1, 0), (-1, -1), (0, 2), (-1, 2)],
            },
        }
    }

    /// The wall kick of `piece` from facing `from` to facing `to`: the five
    /// offsets that a rotation tries in order.
    #[verifier::rlimit(40)]
    pub fn kicktable(piece: Piece, from: Rotation, to: Rotation) -> (out: [(i8, i8); 5])
        ensures
            forall|i: int|
                0 <= i < 5 ==> (#[trigger] out[i].0 as int, out[i].1 as int) == Rotation::spec_kick(
                    piece,
                    from,
                    to,
                    i,
                ),
            forall|i: int| 0 <= i < 5 ==> -4 <= #[trigger] out[i].0 <= 4 && -4 <= out[i].1 <= 4,
    {
        let a = Rotation::offsets(piece, from);
        let b = Rotation::offsets(piece, to);
        [
            (a[0].0 - b[0].0, a[0].1 - b[0].1),
            (a[1].0 - b[1].0, a[1].1 - b[1].1),
            (a[2].0 - b[2].0, a[2].1 - b[2].1),
            (a[3].0 - b[3].0, a[3].1 - b[3].1),
            (a[4].0 - b[4].0, a[4].1 - b[4].1),
        ]
    }

    /// The wall kicks of `piece` from facing `from` to each facing, in the
    /// order `N, S, E, W`.
    fn kicks_from(piece: Piece, from: Rotation) -> (out: [[(i8, i8); 5]; 4])
        ensures
            forall|to: Rotation, i: int|
                0 <= i < 5 ==> (
                    out[to.spec_index()][i].0 as int,
                    out[to.spec_index()][i].1 as int,
                ) == #[trigger] Rotation::spec_kick(piece, from, to, i),
    {
        [
            Rotation::kicktable(piece, from, Rotation::N),
            Rotation::kicktable(piece, from, Rotation::S),
            Rotation::kicktable(piece, from, Rotation::E),
            Rotation::kicktable(piece, from, Rotation::W),
        ]
    }

    /// The wall kicks of `piece` between any two facings.
    fn kicks_of(piece: Piece) -> (out: [[[(i8, i8); 5]; 4]; 4])
        ensures
            forall|from: Rotation, to: Rotation, i: int|
                0 <= i < 5 ==> (
                    out[from.spec_index()][to.spec_index()][i].0 as int,
                    out[from.spec_index()][to.spec_index()][i].1 as int,
                ) == #[trigger] Rotation::spec_kick(piece, from, to, i),
    {
        [
            Rotation::kicks_from(piece, Rotation::N),
            Rotation::kicks_from(piece, Rotation::S),
            Rotation::kicks_from(piece, Rotation::E),
            Rotation::kicks_from(piece, Rotation::W),
        ]
    }

    /// The whole wall-kick table, indexed by piece (in the order
    /// `L, J, S, Z, T, I, O`), by the facing turned from and by the facing
    /// turned to.
    pub fn make_kicks() -> (out: [[[[(i8, i8); 5]; 4]; 4]; 7])
        ensures
            forall|piece: Piece, from: Rotation, to: Rotation, i: int|
                piece.is_tetromino() && 0 <= i < 5 ==> (
                    out[piece.spec_index()][from.spec_index()][to.spec_index()][i].0 as int,
                    out[piece.spec_index()][from.spec_index()][to.spec_index()][i].1 as int,
                ) == #[trigger] Rotation::spec_kick(piece, from, to, i),
    {
        [
            Rotation::kicks_of(Piece::L),
            Rotation::kicks_of(Piece::J),
            Rotation::kicks_of(Piece::S),
            Rotation::kicks_of(Piece::Z),
            Rotation::kicks_of(Piece::T),
            Rotation::kicks_of(Piece::I),
            Rotation::kicks_of(Piece::O),
        ]
    }
}

/// What the search keeps in step with the list `all` of the moves it has
/// found: `seen` holds their canonical keys and `out` holds those of them
/// that rest.
#[verifier::opaque]
pub open spec fn bookkeeping(
    all: Seq<Move>,
    seen: Set<u32>,
    out: Seq<Move>,
    board: Board,
    piece: Piece,
) -> bool {
    &&& forall|i: int| 0 <= i < all.len() ==> seen.contains((#[trigger] all[i]).spec_canon() as u32)
    &&& forall|c: u32|
        seen.contains(c) ==> exists|i: int| 0 <= i < all.len() && (#[trigger] all[i]).spec_canon() == c
    &&& forall|k: int|
        0 <= k < out.len() ==> all.contains(#[trigger] out[k]) && rests(
            board,
            piece,
            out[k].x as int,
            out[k].y as int,
            out[k].r,
        )
    &&& forall|j: int|
        0 <= j < all.len() && rests(board, piece, all[j].x as int, all[j].y as int, all[j].r)
            ==> out.contains(#[trigger] all[j])
    &&& forall|i: int, j: int|
        0 <= i < j < out.len() ==> !same_place(#[trigger] out[i], #[trigger] out[j])
    &&& forall|i: int, j: int|
        0 <= i <= j < out.len() ==> (#[trigger] out[i]).spec_list_len() <= (
        #[trigger] out[j]).spec_list_len()
}

/// Number of places in the search space: ten columns, the 32 rows of the
/// conflict table and four facings.
pub const PLACES: usize = 1280;

/// The number of a place in the search space.
pub open spec fn place_index(m: Move) -> int {
    (m.r.spec_index() * 32 + m.y) * 10 + m.x
}

/// A list of moves in the search space without a place that occurs twice
/// is no longer than the number of places.
pub proof fn lemma_places_bounded(all: Seq<Move>)
    requires
        forall|i: int| 0 <= i < all.len() ==> 0 <= (#[trigger] all[i]).x < 10 && 0 <= all[i].y < 32,
        forall|i: int, j: int|
            0 <= i < j < all.len() ==> !same_place(#[trigger] all[i], #[trigger] all[j]),
    ensures
        all.len() <= PLACES,
{
    let keys = Seq::new(all.len(), |i: int| place_index(all[i]));
    assert forall|i: int, j: int| 0 <= i < keys.len() && 0 <= j < keys.len() && i != j implies keys[i]
        != keys[j] by {
        assert(0 <= all[i].x < 10 && 0 <= all[j].x < 10);
        if i < j {
            assert(!same_place(all[i], all[j]));
        } else {
            assert(!same_place(all[j], all[i]));
        }
    }
    keys.unique_seq_to_set();
    vstd::set_lib::lemma_int_range(0, PLACES as int);
    assert forall|c: int| keys.to_set().contains(c) implies vstd::set_lib::set_int_range(
        0,
        PLACES as int,
    ).contains(c) by {
        let i = choose|i: int| 0 <= i < keys.len() && keys[i] == c;
        assert(0 <= all[i].x < 10 && 0 <= all[i].y < 32);
    }
    vstd::set_lib::lemma_len_subset(keys.to_set(), vstd::set_lib::set_int_range(0, PLACES as int));
}

/// The list of the moves that the search has found is no longer than the
/// number of places.
proof fn lemma_frontier_bounded(all: Seq<Move>, start: Move, board: Board, piece: Piece)
    requires
        frontier(all, start, board, piece),
    ensures
        all.len() <= PLACES,
{
    assert forall|i: int| 0 <= i < all.len() implies 0 <= (#[trigger] all[i]).x < 10 && 0
        <= all[i].y < 32 by {
        assert(reached(start, all[i], board, piece));
    }
    lemma_places_bounded(all);
}

/// The search space is bounded: the enumerator returns no more moves than
/// there are places.
pub proof fn lemma_enumerated_bounded(out: Seq<Move>, board: Board, piece: Piece, held: bool)
    requires
        enumerates(out, board, piece, held),
    ensures
        out.len() <= PLACES,
{
    assert forall|i: int| 0 <= i < out.len() implies 0 <= (#[trigger] out[i]).x < 10 && 0
        <= out[i].y < 32 by {
        assert(reached(spawn(held), out[i], board, piece));
    }
    lemma_places_bounded(out);
}

/// A reached move at a new place, with a key list as long as any in the
/// list, keeps the list in order when it is appended.
proof fn lemma_frontier_push(all0: Seq<Move>, mov: Move, start: Move, board: Board, piece: Piece)
    requires
        frontier(all0, start, board, piece),
        reached(start, mov, board, piece),
        all0.len() == 0 ==> mov == start,
        forall|j: int| 0 <= j < all0.len() ==> !same_place(#[trigger] all0[j], mov),
        forall|j: int| 0 <= j < all0.len() ==> (#[trigger] all0[j]).spec_list_len() <= mov.spec_list_len(),
    ensures
        frontier(all0.push(mov), start, board, piece),
{
    let all1 = all0.push(mov);
    assert forall|i: int| 0 <= i < all1.len() implies reached(start, #[trigger] all1[i], board, piece) by {
        if i < all0.len() {
            assert(all1[i] == all0[i]);
        }
    }
    assert forall|i: int, j: int| 0 <= i < j < all1.len() implies !same_place(
        #[trigger] all1[i],
        #[trigger] all1[j],
    ) by {
        assert(all1[i] == all0[i]);
        if j < all0.len() {
            assert(all1[j] == all0[j]);
        }
    }
    assert forall|i: int, j: int| 0 <= i <= j < all1.len() implies (#[trigger] all1[i]).spec_list_len()
        <= (#[trigger] all1[j]).spec_list_len() by {
        if i < all0.len() {
            assert(all1[i] == all0[i]);
        }
        if j < all0.len() {
            assert(all1[j] == all0[j]);
        }
    }
}

/// The set of seen keys and the output stay in step with the list when a
/// move at a new place is appended to the list and, if it rests, to the
/// output.
proof fn lemma_bookkeeping_push(
    all0: Seq<Move>,
    seen0: Set<u32>,
    out0: Seq<Move>,
    mov: Move,
    board: Board,
    piece: Piece,
)
    requires
        bookkeeping(all0, seen0, out0, board, piece),
        forall|j: int| 0 <= j < all0.len() ==> !same_place(#[trigger] all0[j], mov),
        forall|j: int| 0 <= j < all0.len() ==> (#[trigger] all0[j]).spec_list_len() <= mov.spec_list_len(),
        0 <= mov.spec_canon() <= u32::MAX,
    ensures
        rests(board, piece, mov.x as int, mov.y as int, mov.r) ==> bookkeeping(
            all0.push(mov),
            seen0.insert(mov.spec_canon() as u32),
            out0.push(mov),
            board,
            piece,
        ),
        !rests(board, piece, mov.x as int, mov.y as int, mov.r) ==> bookkeeping(
            all0.push(mov),
            seen0.insert(mov.spec_canon() as u32),
            out0,
            board,
            piece,
        ),
{
    reveal(bookkeeping);
    let key = mov.spec_canon() as u32;
    let all1 = all0.push(mov);
    let seen1 = seen0.insert(key);
    let out1 = if rests(board, piece, mov.x as int, mov.y as int, mov.r) {
        out0.push(mov)
    } else {
        out0
    };
    assert(all1[all1.len() - 1] == mov);
    assert forall|i: int| 0 <= i < all1.len() implies seen1.contains(
        (#[trigger] all1[i]).spec_canon() as u32,
    ) by {
        if i < all0.len() {
            assert(all1[i] == all0[i]);
        }
    }
    assert forall|c: u32| seen1.contains(c) implies exists|i: int|
        0 <= i < all1.len() && (#[trigger] all1[i]).spec_canon() == c by {
        if c == key {
            assert(all1[all1.len() - 1].spec_canon() == c);
        } else {
            let i = choose|i: int| 0 <= i < all0.len() && (#[trigger] all0[i]).spec_canon() == c;
            assert(all1[i] == all0[i]);
        }
    }
    assert forall|k: int| 0 <= k < out1.len() implies all1.contains(#[trigger] out1[k]) && rests(
        board,
        piece,
        out1[k].x as int,
        out1[k].y as int,
        out1[k].r,
    ) by {
        if k < out0.len() {
            assert(out1[k] == out0[k]);
            let j = choose|j: int| 0 <= j < all0.len() && all0[j] == out0[k];
            assert(all1[j] == out1[k]);
        } else {
            assert(all1[all1.len() - 1] == out1[k]);
        }
    }
    assert forall|j: int|
        0 <= j < all1.len() && rests(
            board,
            piece,
            all1[j].x as int,
            all1[j].y as int,
            all1[j].r,
        ) implies out1.contains(#[trigger] all1[j]) by {
        if j < all0.len() {
            assert(all1[j] == all0[j]);
            let k = choose|k: int| 0 <= k < out0.len() && out0[k] == all0[j];
            assert(out1[k] == all1[j]);
        } else {
            assert(out1[out1.len() - 1] == all1[j]);
        }
    }
    assert forall|i: int, j: int| 0 <= i < j < out1.len() implies !same_place(
        #[trigger] out1[i],
        #[trigger] out1[j],
    ) by {
        assert(out1[i] == out0[i]);
        if j < out0.len() {
            assert(out1[j] == out0[j]);
        } else {
            let a = choose|a: int| 0 <= a < all0.len() && all0[a] == out0[i];
            assert(!same_place(all0[a], mov));
        }
    }
    assert forall|i: int, j: int| 0 <= i <= j < out1.len() implies (#[trigger] out1[i]).spec_list_len()
        <= (#[trigger] out1[j]).spec_list_len() by {
        if j < out0.len() {
            assert(out1[i] == out0[i] && out1[j] == out0[j]);
        } else if i < out0.len() {
            assert(out1[i] == out0[i]);
            let a = choose|a: int| 0 <= a < all0.len() && all0[a] == out0[i];
            assert(all0[a].spec_list_len() <= mov.spec_list_len());
        }
    }
}

/// A move whose key has been seen has its place in the list already.
proof fn lemma_seen_found(
    all0: Seq<Move>,
    seen0: Set<u32>,
    out0: Seq<Move>,
    mov: Move,
    start: Move,
    board: Board,
    piece: Piece,
)
    requires
        frontier(all0, start, board, piece),
        bookkeeping(all0, seen0, out0, board, piece),
        reached(start, mov, board, piece),
        forall|j: int| 0 <= j < all0.len() ==> (#[trigger] all0[j]).spec_list_len() <= mov.spec_list_len(),
    ensures
        seen0.contains(mov.spec_canon() as u32) ==> found(all0, mov, mov.spec_list_len() as int),
        !seen0.contains(mov.spec_canon() as u32) ==> forall|j: int|
            0 <= j < all0.len() ==> !same_place(#[trigger] all0[j], mov),
{
    reveal(bookkeeping);
    let key = mov.spec_canon() as u32;
    if seen0.contains(key) {
        let i = choose|i: int| 0 <= i < all0.len() && (#[trigger] all0[i]).spec_canon() == key;
        assert(reached(start, all0[i], board, piece));
        lemma_canon_injective(all0[i], mov);
        assert(same_place(all0[i], mov));
    } else {
        assert forall|j: int| 0 <= j < all0.len() implies !same_place(#[trigger] all0[j], mov) by {
            assert(seen0.contains(all0[j].spec_canon() as u32));
        }
    }
}

/// Takes note of a move that the search has reached: if its place is new,
/// the move joins the list of found moves and, when it rests, the output.
fn record(
    all: &mut Vec<Move>,
    seen: &mut HashSet<u32>,
    out: &mut Vec<Move>,
    table: &ConflictTable,
    mov: Move,
    Ghost(start): Ghost<Move>,
)
    requires
        frontier(old(all)@, start, table.board@, table.piece),
        bookkeeping(old(all)@, old(seen)@, old(out)@, table.board@, table.piece),
        reached(start, mov, table.board@, table.piece),
        old(all)@.len() == 0 ==> mov == start,
        forall|j: int|
            0 <= j < old(all)@.len() ==> (#[trigger] old(all)@[j]).spec_list_len()
                <= mov.spec_list_len(),
    ensures
        frontier(final(all)@, start, table.board@, table.piece),
        bookkeeping(final(all)@, final(seen)@, final(out)@, table.board@, table.piece),
        old(all)@.len() <= final(all)@.len() <= old(all)@.len() + 1,
        final(all)@.subrange(0, old(all)@.len() as int) == old(all)@,
        old(all)@.len() == 0 ==> final(all)@.len() == 1,
        found(final(all)@, mov, mov.spec_list_len() as int),
        forall|j: int|
            0 <= j < final(all)@.len() ==> (#[trigger] final(all)@[j]).spec_list_len()
                <= mov.spec_list_len(),
{
    broadcast use group_hash_axioms;

    let ghost board = table.board@;
    let ghost piece = table.piece;
    let ghost all0 = all@;
    let ghost seen0 = seen@;
    let ghost out0 = out@;
    let key: u32 = mov.canon();
    proof {
        lemma_seen_found(all0, seen0, out0, mov, start, board, piece);
    }
    if seen.insert(key) {
        proof {
            lemma_frontier_push(all0, mov, start, board, piece);
            lemma_bookkeeping_push(all0, seen0, out0, mov, board, piece);
        }
        if table.touches(&mov) {
            out.push(mov);
        }
        all.push(mov);
        proof {
            assert(all@.subrange(0, all0.len() as int) =~= all0);
            assert(same_place(all@[all@.len() - 1], mov));
        }
    } else {
        proof {
            assert(all@.subrange(0, all0.len() as int) =~= all0);
            assert(seen@ =~= seen0);
        }
    }
}

/// What the enumerator returns for `piece` on `board`, entering from the
/// hold or not.
///
/// * Every move in `out` is a placement: its piece does not collide, it
///   rests, and its own keystrokes lead to it from the spawn.
/// * No placement occurs twice, and the key lists never get shorter along
///   the list.
/// * Every resting placement that keystrokes lead to from the spawn occurs,
///   with a key list that is as short as any that leads there.
/// * When the piece collides where it spawns, there is no move at all.
pub open spec fn enumerates(out: Seq<Move>, board: Board, piece: Piece, held: bool) -> bool {
    &&& forall|k: int|
        0 <= k < out.len() ==> reached(spawn(held), #[trigger] out[k], board, piece) && rests(
            board,
            piece,
            out[k].x as int,
            out[k].y as int,
            out[k].r,
        )
    &&& forall|i: int, j: int|
        0 <= i < j < out.len() ==> !same_place(#[trigger] out[i], #[trigger] out[j])
    &&& forall|i: int, j: int|
        0 <= i <= j < out.len() ==> (#[trigger] out[i]).spec_list_len() <= (
        #[trigger] out[j]).spec_list_len()
    &&& !blocked(board, piece, 4, 19, Rotation::N) ==> forall|ks: Seq<Key>|
        (#[trigger] replay(spawn(held), ks, board, piece)) matches Some(m) ==> (rests(
            board,
            piece,
            m.x as int,
            m.y as int,
            m.r,
        ) ==> found(out, m, m.spec_list_len() as int))
    &&& blocked(board, piece, 4, 19, Rotation::N) ==> out.len() == 0
}

/// Whether the list `big` begins with the list `small`.
pub open spec fn extends(small: Seq<Move>, big: Seq<Move>) -> bool {
    small.len() <= big.len() && big.subrange(0, small.len() as int) == small
}

/// A list that begins with a list that begins with a third begins with
/// the third.
proof fn lemma_extends_trans(a: Seq<Move>, b: Seq<Move>, c: Seq<Move>)
    requires
        extends(a, b),
        extends(b, c),
    ensures
        extends(a, c),
{
    assert forall|i: int| 0 <= i < a.len() implies c[i] == a[i] by {
        assert(b.subrange(0, a.len() as int)[i] == b[i]);
        assert(c.subrange(0, b.len() as int)[i] == c[i]);
    }
    assert(c.subrange(0, a.len() as int) =~= a);
}

/// A place that a list holds is held by every list that begins with it.
proof fn lemma_found_grows(small: Seq<Move>, big: Seq<Move>, m: Move, bound: int)
    requires
        extends(small, big),
        found(small, m, bound),
    ensures
        found(big, m, bound),
{
    let j = choose|j: int|
        0 <= j < small.len() && same_place(#[trigger] small[j], m) && small[j].spec_list_len() <= bound;
    assert(big.subrange(0, small.len() as int)[j] == big[j]);
}

/// Takes note of what one step from `mov` led to, if it led anywhere.
fn note_step(
    all: &mut Vec<Move>,
    seen: &mut HashSet<u32>,
    out: &mut Vec<Move>,
    table: &ConflictTable,
    next: Option<Move>,
    Ghost(mov): Ghost<Move>,
    Ghost(key): Ghost<Key>,
    Ghost(start): Ghost<Move>,
)
    requires
        old(all)@.len() > 0,
        frontier(old(all)@, start, table.board@, table.piece),
        bookkeeping(old(all)@, old(seen)@, old(out)@, table.board@, table.piece),
        reached(start, mov, table.board@, table.piece),
        mov.spec_list_len() < LIST_CAPACITY,
        next == step(mov, key, table.board@, table.piece),
        forall|j: int|
            0 <= j < old(all)@.len() ==> (#[trigger] old(all)@[j]).spec_list_len()
                <= mov.spec_list_len() + 1,
    ensures
        frontier(final(all)@, start, table.board@, table.piece),
        bookkeeping(final(all)@, final(seen)@, final(out)@, table.board@, table.piece),
        extends(old(all)@, final(all)@),
        next is Some ==> found(final(all)@, next.unwrap(), mov.spec_list_len() as int + 1),
        forall|j: int|
            0 <= j < final(all)@.len() ==> (#[trigger] final(all)@[j]).spec_list_len()
                <= mov.spec_list_len() + 1,
{
    match next {
        Some(m) => {
            proof {
                lemma_step(start, mov, key, table.board@, table.piece);
            }
            record(all, seen, out, table, m, Ghost(start));
        },
        None => {
            assert(all@.subrange(0, all@.len() as int) =~= all@);
        },
    }
}

/// Takes every step from `mov`, a move in the list with room for another
/// keystroke, and takes note of where each leads.
fn expand(
    all: &mut Vec<Move>,
    seen: &mut HashSet<u32>,
    out: &mut Vec<Move>,
    table: &ConflictTable,
    board: &Board,
    mov: Move,
    Ghost(start): Ghost<Move>,
)
    requires
        table.board@ == *board,
        old(all)@.len() > 0,
        frontier(old(all)@, start, table.board@, table.piece),
        bookkeeping(old(all)@, old(seen)@, old(out)@, table.board@, table.piece),
        reached(start, mov, table.board@, table.piece),
        mov.spec_list_len() < LIST_CAPACITY,
        forall|j: int|
            0 <= j < old(all)@.len() ==> (#[trigger] old(all)@[j]).spec_list_len()
                <= mov.spec_list_len() + 1,
    ensures
        frontier(final(all)@, start, table.board@, table.piece),
        bookkeeping(final(all)@, final(seen)@, final(out)@, table.board@, table.piece),
        extends(old(all)@, final(all)@),
        forall|k: Key|
            (#[trigger] step(mov, k, table.board@, table.piece)) is Some ==> found(
                final(all)@,
                step(mov, k, table.board@, table.piece).unwrap(),
                mov.spec_list_len() as int + 1,
            ),
        forall|j: int|
            0 <= j < final(all)@.len() ==> (#[trigger] final(all)@[j]).spec_list_len()
                <= mov.spec_list_len() + 1,
{
    let piece = table.piece();
    let ghost bound = mov.spec_list_len() as int + 1;
    let ghost all0 = all@;
    let dropped = mov.drop(board, piece);
    note_step(all, seen, out, table, dropped, Ghost(mov), Ghost(Key::Drop), Ghost(start));
    let ghost all1 = all@;
    let right = mov.shift(1, table);
    note_step(all, seen, out, table, right, Ghost(mov), Ghost(Key::R), Ghost(start));
    let ghost all2 = all@;
    let left = mov.shift(-1, table);
    note_step(all, seen, out, table, left, Ghost(mov), Ghost(Key::L), Ghost(start));
    let ghost all3 = all@;
    let turned = mov.cw(table);
    note_step(all, seen, out, table, turned, Ghost(mov), Ghost(Key::CW), Ghost(start));
    let ghost all4 = all@;
    let back = mov.ccw(table);
    note_step(all, seen, out, table, back, Ghost(mov), Ghost(Key::CCW), Ghost(start));
    proof {
        let all5 = all@;
        lemma_extends_trans(all3, all4, all5);
        lemma_extends_trans(all2, all3, all5);
        lemma_extends_trans(all1, all2, all5);
        lemma_extends_trans(all0, all1, all5);
        if dropped is Some {
            lemma_found_grows(all1, all5, dropped.unwrap(), bound);
        }
        if right is Some {
            lemma_found_grows(all2, all5, right.unwrap(), bound);
        }
        if left is Some {
            lemma_found_grows(all3, all5, left.unwrap(), bound);
        }
        if turned is Some {
            lemma_found_grows(all4, all5, turned.unwrap(), bound);
        }
        assert forall|k: Key|
            (#[trigger] step(mov, k, table.board@, table.piece)) is Some implies found(
            all5,
            step(mov, k, table.board@, table.piece).unwrap(),
            bound,
        ) by {
            match k {
                Key::Drop => {},
                Key::R => {},
                Key::L => {},
                Key::CW => {},
                Key::CCW => {},
                Key::Hold => {},
            }
        }
    }
}

/// Once every step from the move at `head` has been taken, the list is
/// closed up to and including that move.
proof fn lemma_closed_next(
    all0: Seq<Move>,
    all5: Seq<Move>,
    head: int,
    board: Board,
    piece: Piece,
)
    requires
        0 <= head < all0.len(),
        extends(all0, all5),
        closed_upto(all0, head, board, piece),
        all0[head].spec_list_len() < LIST_CAPACITY ==> forall|k: Key|
            (#[trigger] step(all0[head], k, board, piece)) is Some ==> found(
                all5,
                step(all0[head], k, board, piece).unwrap(),
                all0[head].spec_list_len() as int + 1,
            ),
    ensures
        closed_upto(all5, head + 1, board, piece),
{
    reveal(closed_upto);
    assert forall|i: int, k: Key|
        0 <= i < head + 1 && i < all5.len() && all5[i].spec_list_len() < LIST_CAPACITY && (
        #[trigger] step(all5[i], k, board, piece)) is Some implies found(
        all5,
        step(all5[i], k, board, piece).unwrap(),
        all5[i].spec_list_len() as int + 1,
    ) by {
        assert(all5.subrange(0, all0.len() as int)[i] == all5[i]);
        if i < head {
            lemma_found_grows(
                all0,
                all5,
                step(all0[i], k, board, piece).unwrap(),
                all0[i].spec_list_len() as int + 1,
            );
        }
    }
}

/// Enumerates the placements of one piece on a board by breadth-first
/// search from the spawn over soft drop, the two shifts and the two turns.
/// With `held` the piece comes from the hold and every key list begins with
/// `Hold`.
pub fn gen_moves_one(board: &Board, piece: Piece, held: bool) -> (out: Vec<Move>)
    requires
        piece.is_tetromino(),
    ensures
        enumerates(out@, *board, piece, held),
{
    let mut all: Vec<Move> = Vec::new();
    let mut seen: HashSet<u32> = HashSet::new();
    let mut out: Vec<Move> = Vec::new();
    let table = ConflictTable::from(board, piece);
    let mut first = Move { x: 4, y: 19, r: Rotation::N, list: 0 };
    proof {
        bits::lemma_empty_list();
    }
    if held {
        first.add_key(&Key::Hold);
    }
    let ghost start = first;
    assert(start == spawn(held));
    if table.conflicts(&first) {
        return out;
    }
    proof {
        reveal(bookkeeping);
    }
    proof {
        assert(super::reach::tail_keys(start, start) =~= Seq::<Key>::empty());
        assert(reached(start, start, *board, piece));
    }
    record(&mut all, &mut seen, &mut out, &table, first, Ghost(start));
    assert(all@.len() == 1 && all@[0] == start) by {
        let j = choose|j: int|
            0 <= j < all@.len() && same_place(#[trigger] all@[j], first) && all@[j].spec_list_len()
                <= first.spec_list_len();
    }
    let mut head: usize = 0;
    proof {
        reveal(closed_upto);
    }
    while head < all.len()
        invariant
                table.board@ == *board,
            table.piece == piece,
            all@.len() > 0,
            head <= all@.len(),
            frontier(all@, start, *board, piece),
            bookkeeping(all@, seen@, out@, *board, piece),
            closed_upto(all@, head as int, *board, piece),
            head < all@.len() ==> forall|j: int|
                0 <= j < all@.len() ==> (#[trigger] all@[j]).spec_list_len() <= all@[head as int].spec_list_len()
                    + 1,
        decreases PLACES - head,
    {
        proof {
            lemma_frontier_bounded(all@, start, *board, piece);
        }
        let mov = all[head];
        let ghost all0 = all@;
        assert(reached(start, mov, *board, piece));
        if mov.list_has_space() {
            expand(&mut all, &mut seen, &mut out, &table, board, mov, Ghost(start));
        } else {
            assert(all@.subrange(0, all@.len() as int) =~= all@);
        }
        proof {
            let all5 = all@;
            lemma_closed_next(all0, all5, head as int, *board, piece);
            assert(all5.subrange(0, all0.len() as int)[head as int] == all5[head as int]);
            if head + 1 < all5.len() {
                assert forall|j: int| 0 <= j < all5.len() implies (#[trigger] all5[j]).spec_list_len()
                    <= all5[head + 1].spec_list_len() + 1 by {
                    assert(all5[head as int].spec_list_len() <= all5[head + 1].spec_list_len());
                    if j < all0.len() {
                        assert(all5.subrange(0, all0.len() as int)[j] == all5[j]);
                    }
                }
            }
        }
        head += 1;
    }
    proof {
        reveal(bookkeeping);
        assert forall|ks: Seq<Key>|
            (#[trigger] replay(spawn(held), ks, *board, piece)) is Some && rests(
                *board,
                piece,
                replay(spawn(held), ks, *board, piece).unwrap().x as int,
                replay(spawn(held), ks, *board, piece).unwrap().y as int,
                replay(spawn(held), ks, *board, piece).unwrap().r,
            ) implies found(
            out@,
            replay(spawn(held), ks, *board, piece).unwrap(),
            replay(spawn(held), ks, *board, piece).unwrap().spec_list_len() as int,
        ) by {
            let m = replay(spawn(held), ks, *board, piece).unwrap();
            lemma_complete(all@, start, ks, *board, piece);
            let j = choose|j: int|
                0 <= j < all@.len() && same_place(#[trigger] all@[j], m) && all@[j].spec_list_len()
                    <= m.spec_list_len();
            assert(out@.contains(all@[j]));
            let k = choose|k: int| 0 <= k < out@.len() && out@[k] == all@[j];
            assert(same_place(out@[k], m));
        }
        assert forall|k: int| 0 <= k < out@.len() implies reached(
            spawn(held),
            #[trigger] out@[k],
            *board,
            piece,
        ) by {
            assert(all@.contains(out@[k]));
        }
    }
    out
}

/// No enumerated placement is illegal: none of the four cells of the piece
/// lies beside the board, below the floor or on an occupied cell.
#[verifier::rlimit(40)]
pub proof fn lemma_enumerated_legal(out: Seq<Move>, board: Board, piece: Piece, held: bool, k: int)
    requires
        enumerates(out, board, piece, held),
        0 <= k < out.len(),
    ensures
        forall|i: int|
            0 <= i < 4 ==> {
                &&& 0 <= #[trigger] out[k].cell_x(piece, i) < 10
                &&& 0 <= out[k].cell_y(piece, i)
                &&& !board.occ(out[k].cell_x(piece, i), out[k].cell_y(piece, i))
            },
        out[k].spec_held() == held,
{
    assert(reached(spawn(held), out[k], board, piece));
    lemma_reached_held(out[k], board, piece, held);
}

/// Every enumerated placement is resting: one row further down the piece
/// would collide or leave the board through the floor.
pub proof fn lemma_enumerated_rests(out: Seq<Move>, board: Board, piece: Piece, held: bool, k: int)
    requires
        enumerates(out, board, piece, held),
        0 <= k < out.len(),
    ensures
        out[k].y == 0 || board.collides(piece, out[k].x as int, out[k].y - 1, out[k].r),
{
    assert(reached(spawn(held), out[k], board, piece));
}

/// What the enumerator returns for a state: the placements of the active
/// piece followed, when a piece is held, by the placements of the held
/// piece.
pub open spec fn enumerates_state(out: Seq<Move>, s: StateView) -> bool {
    exists|n: int|
        0 <= n <= out.len() && #[trigger] enumerates(out.subrange(0, n), s.board, s.queue[0], false)
            && match s.hold {
            Some(h) => enumerates(out.subrange(n, out.len() as int), s.board, h, true),
            None => n == out.len(),
        }
}

/// Enumerates the placements that are open in `state`: those of the active
/// piece and, when a piece is held, those of the held piece after a swap.
///
/// Each move places the piece that the state hands it, on free cells of
/// the board, at rest.
pub fn gen_moves(state: &State) -> (out: Vec<Move>)
    requires
        state@.wf(),
        state@.queue.len() > 0,
    ensures
        enumerates_state(out@, state@),
        forall|k: int|
            0 <= k < out.len() ==> (state@.placed_piece(#[trigger] out[k]) matches Some(p) && {
                &&& p.is_tetromino()
                &&& !state@.board.collides(p, out[k].x as int, out[k].y as int, out[k].r)
                &&& rests(state@.board, p, out[k].x as int, out[k].y as int, out[k].r)
            }),
{
    let piece = state.queue[0];
    let mut out = gen_moves_one(&state.board, piece, false);
    let ghost active = out@;
    proof {
        assert forall|k: int| 0 <= k < active.len() implies !(#[trigger] active[k]).spec_held() by {
            lemma_enumerated_legal(active, state.board, piece, false, k);
        }
    }
    match state.hold {
        Some(hold) => {
            let more = gen_moves_one(&state.board, hold, true);
            proof {
                assert forall|k: int| 0 <= k < more.len() implies (#[trigger] more@[k]).spec_held() by {
                    lemma_enumerated_legal(more@, state.board, hold, true, k);
                }
            }
            let mut i: usize = 0;
            while i < more.len()
                invariant
                    i <= more.len(),
                    out@ == active + more@.subrange(0, i as int),
                decreases more.len() - i,
            {
                out.push(more[i]);
                i += 1;
                assert(out@ =~= active + more@.subrange(0, i as int));
            }
            proof {
                assert(more@.subrange(0, more.len() as int) =~= more@);
                assert(out@.subrange(0, active.len() as int) =~= active);
                assert(out@.subrange(active.len() as int, out@.len() as int) =~= more@);
                assert(enumerates(out@.subrange(0, active.len() as int), state.board, piece, false));
                assert forall|k: int| 0 <= k < out.len() implies (state@.placed_piece(
                    #[trigger] out[k],
                ) matches Some(p) && {
                    &&& p.is_tetromino()
                    &&& !state@.board.collides(p, out[k].x as int, out[k].y as int, out[k].r)
                    &&& rests(state@.board, p, out[k].x as int, out[k].y as int, out[k].r)
                }) by {
                    if k < active.len() {
                        assert(out[k] == active[k]);
                        assert(reached(spawn(false), active[k], state.board, piece));
                    } else {
                        assert(out[k] == more@[k - active.len()]);
                        assert(reached(spawn(true), more@[k - active.len()], state.board, hold));
                    }
                }
            }
        },
        None => {
            proof {
                assert(out@.subrange(0, active.len() as int) =~= active);
                assert(enumerates(out@.subrange(0, active.len() as int), state.board, piece, false));
                assert forall|k: int| 0 <= k < out.len() implies (state@.placed_piece(
                    #[trigger] out[k],
                ) matches Some(p) && {
                    &&& p.is_tetromino()
                    &&& !state@.board.collides(p, out[k].x as int, out[k].y as int, out[k].r)
                    &&& rests(state@.board, p, out[k].x as int, out[k].y as int, out[k].r)
                }) by {
                    assert(reached(spawn(false), active[k], state.board, piece));
                }
            }
        },
    }
    out
}

} // verus!
