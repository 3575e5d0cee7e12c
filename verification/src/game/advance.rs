//! Applying a move: placing the piece, clearing lines and scoring the clear.
use vstd::prelude::*;

use super::bits;
use super::bits::{bit, count_below, key_field, len_field, without_bit};
use super::{board_of, Board, Move, MoveStats, Piece, State, StateView};

verus! {

impl Move {
    /// Whether the move begins by swapping the active piece with the hold.
    pub open spec fn spec_held(&self) -> bool {
        len_field(self.list) != 0 && key_field(self.list, 0) == 6
    }

    /// Whether the first keystroke of the move is `Hold`.
    pub fn held(&self) -> (h: bool)
        ensures
            h == self.spec_held(),
            self.wf() ==> h == (self.keys().len() > 0 && self.keys()[0] == super::Key::Hold),
    {
        if self.list_len() == 0 {
            return false;
        }
        let val: u64 = (self.list >> 5) & 7;
        assert(val == key_field(self.list, 0));
        val == 6
    }

    /// Column of cell `i` of `piece` when it is placed by this move.
    pub open spec fn cell_x(&self, piece: Piece, i: int) -> int {
        self.x + piece.cell(self.r, i).0
    }

    /// Row of cell `i` of `piece` when it is placed by this move.
    pub open spec fn cell_y(&self, piece: Piece, i: int) -> int {
        self.y + piece.cell(self.r, i).1
    }

    /// Whether one of the first `n` cells of `piece`, placed by this move,
    /// is the cell `(x, y)`.
    pub open spec fn covers_upto(&self, piece: Piece, n: int, x: int, y: int) -> bool {
        ||| (0 < n && self.cell_x(piece, 0) == x && self.cell_y(piece, 0) == y)
        ||| (1 < n && self.cell_x(piece, 1) == x && self.cell_y(piece, 1) == y)
        ||| (2 < n && self.cell_x(piece, 2) == x && self.cell_y(piece, 2) == y)
        ||| (3 < n && self.cell_x(piece, 3) == x && self.cell_y(piece, 3) == y)
    }

    /// Whether `piece`, placed by this move, covers the cell `(x, y)`.
    pub open spec fn covers(&self, piece: Piece, x: int, y: int) -> bool {
        self.covers_upto(piece, 4, x, y)
    }
}

impl Board {
    /// Whether the cell `(x, y)` is blocked: occupied, beside the board or
    /// below the floor.
    pub open spec fn spec_occupied(&self, x: int, y: int) -> bool {
        x < 0 || x > 9 || y < 0 || self.occ(x, y)
    }

    /// Whether `piece` can be placed by `mov`: every cell of it lies inside
    /// the twenty rows of the board and on a free cell.
    pub open spec fn fits(&self, piece: Piece, mov: Move) -> bool {
        forall|i: int|
            0 <= i < 4 ==> {
                &&& 0 <= #[trigger] mov.cell_x(piece, i) < 10
                &&& 0 <= mov.cell_y(piece, i) < 20
                &&& !self.occ(mov.cell_x(piece, i), mov.cell_y(piece, i))
            }
    }

    /// The board with the cell `(x, y)` occupied as well.
    pub open spec fn with_cell(self, x: int, y: int) -> Board {
        board_of(|k: int| if k == x { self.v[k] | (1u32 << (y as u32)) } else { self.v[k] })
    }

    /// The board with the first `n` cells of `piece`, placed by `mov`,
    /// occupied as well.
    pub open spec fn spec_place_upto(self, piece: Piece, mov: Move, n: int) -> Board
        decreases n,
    {
        if n <= 0 {
            self
        } else {
            self.spec_place_upto(piece, mov, n - 1).with_cell(
                mov.cell_x(piece, n - 1),
                mov.cell_y(piece, n - 1),
            )
        }
    }

    /// The board with `piece` placed on it by `mov`.
    pub open spec fn spec_place(self, piece: Piece, mov: Move) -> Board {
        self.spec_place_upto(piece, mov, 4)
    }

    /// The board with row `t` taken out and the rows above it moved down.
    pub open spec fn without_row(self, t: int) -> Board {
        board_of(|k: int| without_bit(self.v[k], t as u32))
    }

    /// The board with its full rows from row `t` upwards taken out.
    pub open spec fn clear_from(self, t: int) -> Board
        decreases 32 - t,
    {
        if t >= 32 {
            self
        } else if self.full_row(t) {
            self.clear_from(t + 1).without_row(t)
        } else {
            self.clear_from(t + 1)
        }
    }

    /// The board with all of its full rows taken out.
    pub open spec fn spec_clear(self) -> Board {
        self.clear_from(0)
    }

    /// Whether the cell `(x, y)` is blocked; cells beside the board and below
    /// the floor count as occupied.
    pub fn occupied(&self, x: i32, y: i32) -> (b: bool)
        ensures
            b == self.spec_occupied(x as int, y as int),
    {
        if x < 0 || x > 9 || y < 0 {
            true
        } else if y >= 32 {
            false
        } else {
            (self.v[x as usize] >> (y as u32)) & 1 == 1
        }
    }

    /// Number of blocked cells among the four diagonal neighbours of `(x, y)`.
    pub open spec fn corner_count(&self, x: int, y: int) -> int {
        (if self.spec_occupied(x - 1, y - 1) { 1int } else { 0int })
            + (if self.spec_occupied(x - 1, y + 1) { 1int } else { 0int })
            + (if self.spec_occupied(x + 1, y + 1) { 1int } else { 0int })
            + (if self.spec_occupied(x + 1, y - 1) { 1int } else { 0int })
    }

    /// The three-corner rule: at least three of the four diagonal neighbours
    /// of the move's anchor are blocked.
    pub open spec fn spec_is_tspin(&self, mov: Move) -> bool {
        self.corner_count(mov.x as int, mov.y as int) >= 3
    }

    /// Whether a T piece that `mov` has just placed, with no line cleared
    /// yet, made a T-spin by the three-corner rule.
    pub fn is_tspin(&self, mov: &Move) -> (b: bool)
        ensures
            b == self.spec_is_tspin(*mov),
    {
        let x: i32 = mov.x as i32;
        let y: i32 = mov.y as i32;
        let mut corners: u8 = 0;
        if self.occupied(x - 1, y - 1) {
            corners += 1;
        }
        if self.occupied(x - 1, y + 1) {
            corners += 1;
        }
        if self.occupied(x + 1, y + 1) {
            corners += 1;
        }
        if self.occupied(x + 1, y - 1) {
            corners += 1;
        }
        corners >= 3
    }

    /// Whether `piece` can be placed by `mov`.
    pub fn can_place(&self, piece: Piece, mov: &Move) -> (b: bool)
        requires
            piece.is_tetromino(),
        ensures
            b == self.fits(piece, *mov),
    {
        let cells = piece.cells(mov.r);
        let mut i: usize = 0;
        while i < 4
            invariant
                i <= 4,
                piece.is_tetromino(),
                forall|k: int|
                    0 <= k < 4 ==> (#[trigger] cells[k].0 as int, cells[k].1 as int) == piece.cell(
                        mov.r,
                        k,
                    ),
                forall|k: int|
                    0 <= k < i ==> {
                        &&& 0 <= #[trigger] mov.cell_x(piece, k) < 10
                        &&& 0 <= mov.cell_y(piece, k) < 20
                        &&& !self.occ(mov.cell_x(piece, k), mov.cell_y(piece, k))
                    },
            decreases 4 - i,
        {
            let nx: i32 = mov.x as i32 + cells[i].0 as i32;
            let ny: i32 = mov.y as i32 + cells[i].1 as i32;
            assert(nx == mov.cell_x(piece, i as int) && ny == mov.cell_y(piece, i as int));
            if nx < 0 || nx >= 10 || ny < 0 || ny >= 20 || self.occupied(nx, ny) {
                return false;
            }
            assert(!self.occ(nx as int, ny as int));
            assert forall|k: int| 0 <= k < i + 1 implies {
                &&& 0 <= #[trigger] mov.cell_x(piece, k) < 10
                &&& 0 <= mov.cell_y(piece, k) < 20
                &&& !self.occ(mov.cell_x(piece, k), mov.cell_y(piece, k))
            } by {
                if k == i {
                    assert(mov.cell_x(piece, k) == nx && mov.cell_y(piece, k) == ny);
                }
            }
            i += 1;
        }
        true
    }

    /// Places `piece` on the board as `mov` says. Lines are not cleared.
    pub fn place(&mut self, piece: Piece, mov: &Move)
        requires
            piece.is_tetromino(),
            old(self).wf(),
            old(self).fits(piece, *mov),
        ensures
            *final(self) == old(self).spec_place(piece, *mov),
            final(self).wf(),
            forall|x: int, y: int|
                final(self).occ(x, y) == (old(self).occ(x, y) || mov.covers(piece, x, y)),
    {
        let cells = piece.cells(mov.r);
        let mut i: usize = 0;
        while i < 4
            invariant
                i <= 4,
                piece.is_tetromino(),
                old(self).fits(piece, *mov),
                self.wf(),
                *self == old(self).spec_place_upto(piece, *mov, i as int),
                forall|k: int|
                    0 <= k < 4 ==> (#[trigger] cells[k].0 as int, cells[k].1 as int) == piece.cell(
                        mov.r,
                        k,
                    ),
                forall|x: int, y: int|
                    self.occ(x, y) == (old(self).occ(x, y) || mov.covers_upto(
                        piece,
                        i as int,
                        x,
                        y,
                    )),
            decreases 4 - i,
        {
            assert(0 <= mov.cell_x(piece, i as int) < 10 && 0 <= mov.cell_y(piece, i as int) < 20);
            let nx: i8 = mov.x + cells[i].0;
            let ny: i8 = mov.y + cells[i].1;
            let ghost before = *self;
            let col: u32 = self.v[nx as usize];
            self.v[nx as usize] = col | (1u32 << (ny as u32));
            proof {
                bits::lemma_bit_or(col, 1u32 << (ny as u32));
                bits::lemma_bit_single(ny as u32);
                bits::lemma_set_low_bit(col, ny as u32);
                assert(self.v =~= before.with_cell(nx as int, ny as int).v);
                assert forall|x: int, y: int|
                    self.occ(x, y) == (old(self).occ(x, y) || mov.covers_upto(
                        piece,
                        i as int + 1,
                        x,
                        y,
                    )) by {
                    assert(before.occ(x, y) == (old(self).occ(x, y) || mov.covers_upto(
                        piece,
                        i as int,
                        x,
                        y,
                    )));
                    if x == nx {
                        assert(self.v[x] == col | (1u32 << (ny as u32)));
                    } else if 0 <= x < 10 {
                        assert(self.v[x] == before.v[x]);
                    }
                }
            }
            i += 1;
        }
    }
}

/// Occupying a free cell within the twenty rows occupies that cell and no
/// other, and keeps the board well formed.
pub proof fn lemma_with_cell(b: Board, cx: int, cy: int)
    requires
        b.wf(),
        0 <= cx < 10,
        0 <= cy < 20,
    ensures
        b.with_cell(cx, cy).wf(),
        forall|x: int, y: int| b.with_cell(cx, cy).occ(x, y) == (b.occ(x, y) || (x == cx && y == cy)),
{
    let n = b.with_cell(cx, cy);
    let one: u32 = 1u32 << (cy as u32);
    bits::lemma_bit_or(b.v[cx], one);
    bits::lemma_bit_single(cy as u32);
    bits::lemma_set_low_bit(b.v[cx], cy as u32);
    assert forall|x: int| 0 <= x < 10 implies #[trigger] n.v[x] == (if x == cx {
        b.v[x] | one
    } else {
        b.v[x]
    }) by {}
    assert forall|x: int, y: int| n.occ(x, y) == (b.occ(x, y) || (x == cx && y == cy)) by {
        if 0 <= x < 10 {
            if x == cx {
                assert(n.v[x] == b.v[x] | one);
                assert(bit(n.v[x], y) == (bit(b.v[x], y) || bit(one, y)));
                assert(bit(one, y) == (y == cy));
            } else {
                assert(n.v[x] == b.v[x]);
            }
        }
    }
    assert forall|x: int| 0 <= x < 10 implies #[trigger] n.v[x] < 0x10_0000 by {
        if x == cx {
            assert(n.v[x] == b.v[x] | one);
        } else {
            assert(n.v[x] == b.v[x]);
        }
    }
}

/// Placing the first `n` cells of a piece that fits occupies those cells
/// and no others, and keeps the board well formed.
pub proof fn lemma_place_upto(b: Board, piece: Piece, mov: Move, n: int)
    requires
        b.wf(),
        b.fits(piece, mov),
        0 <= n <= 4,
    ensures
        b.spec_place_upto(piece, mov, n).wf(),
        forall|x: int, y: int|
            b.spec_place_upto(piece, mov, n).occ(x, y) == (b.occ(x, y) || mov.covers_upto(
                piece,
                n,
                x,
                y,
            )),
    decreases n,
{
    if n > 0 {
        lemma_place_upto(b, piece, mov, n - 1);
        assert(0 <= mov.cell_x(piece, n - 1) < 10 && 0 <= mov.cell_y(piece, n - 1) < 20);
        lemma_with_cell(
            b.spec_place_upto(piece, mov, n - 1),
            mov.cell_x(piece, n - 1),
            mov.cell_y(piece, n - 1),
        );
    }
}

/// Placing a piece that fits occupies its four cells and no others, and
/// keeps the board well formed.
pub proof fn lemma_place(b: Board, piece: Piece, mov: Move)
    requires
        b.wf(),
        b.fits(piece, mov),
    ensures
        b.spec_place(piece, mov).wf(),
        forall|x: int, y: int|
            b.spec_place(piece, mov).occ(x, y) == (b.occ(x, y) || mov.covers(piece, x, y)),
{
    lemma_place_upto(b, piece, mov, 4);
}

/// `v` with bit `y` taken out and the bits above it moved down by one.
fn drop_bit(v: u32, y: u32) -> (r: u32)
    requires
        y < 32,
    ensures
        r == without_bit(v, y),
{
    proof {
        bits::lemma_single_bit_positive(y);
    }
    let low: u32 = (1u32 << y) - 1;
    (v & low) | ((v >> 1) & !low)
}

/// Number of full rows of `b` from row `t` upwards.
pub open spec fn full_from(b: Board, t: int) -> int {
    b.full_below(32) - b.full_below(t)
}

/// What holds between a board `old` and the board `cur` that is left when
/// the full rows of `old` from row `t` upwards have been taken out.
#[verifier::opaque]
pub open spec fn cleared_above(old: Board, cur: Board, t: int) -> bool {
    &&& forall|x: int, y: int| 0 <= x < 10 && 0 <= y < t ==> cur.occ(x, y) == #[trigger] old.occ(x, y)
    &&& forall|x: int, y: int|
        0 <= x < 10 && t <= y < 32 && !old.full_row(y) ==> cur.occ(
            x,
            y - (old.full_below(y) - old.full_below(t)),
        ) == #[trigger] old.occ(x, y)
    &&& forall|x: int, k: int| k >= 32 - full_from(old, t) ==> !#[trigger] cur.occ(x, k)
    &&& forall|k: int| t <= k ==> !#[trigger] cur.full_row(k)
    &&& cur.cell_count() == old.cell_count() - 10 * full_from(old, t)
    &&& old.wf() ==> cur.wf()
}

/// Between two rows there are at most as many full rows as rows.
pub proof fn lemma_full_below_step(b: Board, a: int, n: int)
    requires
        0 <= a <= n,
    ensures
        0 <= b.full_below(n) - b.full_below(a) <= n - a,
    decreases n - a,
{
    if a < n {
        lemma_full_below_step(b, a, n - 1);
    }
}

/// Nothing has been taken out before the first row is looked at.
proof fn lemma_cleared_start(b: Board)
    ensures
        cleared_above(b, b, 32),
{
    reveal(cleared_above);
    assert forall|k: int| 32 <= k implies !#[trigger] b.full_row(k) by {}
}

/// A row that is not full stays where it is.
proof fn lemma_cleared_keep(old: Board, cur: Board, t: int)
    requires
        0 <= t < 32,
        cleared_above(old, cur, t + 1),
        !old.full_row(t),
    ensures
        cleared_above(old, cur, t),
{
    reveal(cleared_above);
    assert(old.full_below(t + 1) == old.full_below(t));
    assert forall|x: int, y: int| 0 <= x < 10 && t <= y < 32 && !old.full_row(y) implies cur.occ(
        x,
        y - (old.full_below(y) - old.full_below(t)),
    ) == #[trigger] old.occ(x, y) by {
        if y == t {
            assert(cur.occ(x, t) == old.occ(x, t));
        }
    }
    assert forall|k: int| t <= k implies !#[trigger] cur.full_row(k) by {
        if k == t {
            assert(forall|x: int| 0 <= x < 10 ==> cur.occ(x, t) == old.occ(x, t));
        }
    }
}

/// Taking a full row out moves every row above it down by one.
proof fn lemma_cleared_drop(old: Board, cur: Board, new: Board, t: int)
    requires
        0 <= t < 32,
        cleared_above(old, cur, t + 1),
        old.full_row(t),
        forall|x: int| 0 <= x < 10 ==> new.v[x] == without_bit(#[trigger] cur.v[x], t as u32),
    ensures
        cleared_above(old, new, t),
{
    reveal(cleared_above);
    assert(old.full_below(t + 1) == old.full_below(t) + 1);
    assert forall|x: int, i: int| 0 <= x < 10 implies #[trigger] new.occ(x, i) == (if i < t {
        cur.occ(x, i)
    } else {
        cur.occ(x, i + 1)
    }) by {
        bits::lemma_without_bit(cur.v[x], t as u32);
    }
    lemma_full_below_step(old, t, 32);
    assert forall|x: int, y: int| 0 <= x < 10 && t <= y < 32 && !old.full_row(y) implies new.occ(
        x,
        y - (old.full_below(y) - old.full_below(t)),
    ) == #[trigger] old.occ(x, y) by {
        lemma_full_below_step(old, t + 1, y);
        let at = y - (old.full_below(y) - old.full_below(t + 1));
        assert(cur.occ(x, at) == old.occ(x, y));
        assert(new.occ(x, at - 1) == cur.occ(x, at));
    }
    assert forall|x: int, k: int| k >= 32 - full_from(old, t) implies !#[trigger] new.occ(x, k) by {
        if 0 <= x < 10 {
            assert(new.occ(x, k) == cur.occ(x, k + 1));
            assert(!cur.occ(x, k + 1));
        }
    }
    assert forall|k: int| t <= k implies !#[trigger] new.full_row(k) by {
        assert(forall|x: int| 0 <= x < 10 ==> new.occ(x, k) == cur.occ(x, k + 1));
        assert(!cur.full_row(k + 1));
    }
    assert forall|x: int| 0 <= x < 10 implies count_below(#[trigger] new.v[x], 32) == count_below(
        cur.v[x],
        32,
    ) - 1 by {
        assert(cur.occ(x, t) == old.occ(x, t));
        bits::lemma_count_without_bit(cur.v[x], t as u32);
    }
    assert(new.cell_count() == cur.cell_count() - 10) by {
        assert(count_below(new.v[0], 32) == count_below(cur.v[0], 32) - 1);
        assert(count_below(new.v[1], 32) == count_below(cur.v[1], 32) - 1);
        assert(count_below(new.v[2], 32) == count_below(cur.v[2], 32) - 1);
        assert(count_below(new.v[3], 32) == count_below(cur.v[3], 32) - 1);
        assert(count_below(new.v[4], 32) == count_below(cur.v[4], 32) - 1);
        assert(count_below(new.v[5], 32) == count_below(cur.v[5], 32) - 1);
        assert(count_below(new.v[6], 32) == count_below(cur.v[6], 32) - 1);
        assert(count_below(new.v[7], 32) == count_below(cur.v[7], 32) - 1);
        assert(count_below(new.v[8], 32) == count_below(cur.v[8], 32) - 1);
        assert(count_below(new.v[9], 32) == count_below(cur.v[9], 32) - 1);
    }
    if old.wf() {
        assert forall|x: int| 0 <= x < 10 implies #[trigger] new.v[x] < 0x10_0000 by {
            bits::lemma_without_bit_low(cur.v[x], t as u32);
        }
    }
}

impl Board {
    /// The word whose bit `y` is set when row `y` is full.
    fn full_rows(&self) -> (mask: u32)
        ensures
            forall|y: int| bit(mask, y) == self.full_row(y),
    {
        let m1: u32 = self.v[0] & self.v[1];
        let m2: u32 = m1 & self.v[2];
        let m3: u32 = m2 & self.v[3];
        let m4: u32 = m3 & self.v[4];
        let m5: u32 = m4 & self.v[5];
        let m6: u32 = m5 & self.v[6];
        let m7: u32 = m6 & self.v[7];
        let m8: u32 = m7 & self.v[8];
        let m9: u32 = m8 & self.v[9];
        proof {
            bits::lemma_bit_and(self.v[0], self.v[1]);
            bits::lemma_bit_and(m1, self.v[2]);
            bits::lemma_bit_and(m2, self.v[3]);
            bits::lemma_bit_and(m3, self.v[4]);
            bits::lemma_bit_and(m4, self.v[5]);
            bits::lemma_bit_and(m5, self.v[6]);
            bits::lemma_bit_and(m6, self.v[7]);
            bits::lemma_bit_and(m7, self.v[8]);
            bits::lemma_bit_and(m8, self.v[9]);
        }
        m9
    }

    /// Takes every full row out of the board, lets the rows above fall, and
    /// returns the number of rows taken out.
    ///
    /// A row that was not full ends up lower by the number of full rows that
    /// were below it; the rows that become free at the top are empty.
    /// Afterwards no row is full and the board holds ten cells less for
    /// each row taken out.
    pub fn clear(&mut self) -> (clears: u32)
        ensures
            *final(self) == old(self).spec_clear(),
            clears == old(self).full_below(32),
            clears <= 32,
            forall|x: int, y: int|
                0 <= x < 10 && 0 <= y < 32 && !old(self).full_row(y) ==> final(self).occ(
                    x,
                    y - old(self).full_below(y),
                ) == #[trigger] old(self).occ(x, y),
            forall|x: int, k: int| k >= 32 - clears ==> !#[trigger] final(self).occ(x, k),
            forall|y: int| !#[trigger] final(self).full_row(y),
            final(self).cell_count() == old(self).cell_count() - 10 * clears,
            old(self).wf() ==> final(self).wf(),
    {
        let mask: u32 = self.full_rows();
        let mut clears: u32 = 0;
        let mut t: u32 = 32;
        proof {
            lemma_cleared_start(*self);
        }
        while t > 0
            invariant
                t <= 32,
                forall|y: int| bit(mask, y) == old(self).full_row(y),
                clears == full_from(*old(self), t as int),
                cleared_above(*old(self), *self, t as int),
                *self == old(self).clear_from(t as int),
            decreases t,
        {
            t -= 1;
            proof {
                lemma_full_below_step(*old(self), t as int, 32);
            }
            if (mask >> t) & 1 == 1 {
                assert(bit(mask, t as int));
                let ghost cur = *self;
                let mut x: usize = 0;
                while x < 10
                    invariant
                        x <= 10,
                        t < 32,
                        forall|k: int| 0 <= k < x ==> self.v[k] == without_bit(#[trigger] cur.v[k], t),
                        forall|k: int| x <= k < 10 ==> self.v[k] == cur.v[k],
                    decreases 10 - x,
                {
                    let col: u32 = self.v[x];
                    self.v[x] = drop_bit(col, t);
                    x += 1;
                }
                clears += 1;
                proof {
                    lemma_cleared_drop(*old(self), cur, *self, t as int);
                    assert(self.v =~= cur.without_row(t as int).v);
                }
            } else {
                assert(!bit(mask, t as int));
                proof {
                    lemma_cleared_keep(*old(self), *self, t as int);
                }
            }
        }
        proof {
            lemma_cleared(*old(self), *self);
        }
        clears
    }
}

/// What holds of a board `old` and the board `new` that is left when all
/// of its full rows have been taken out: a row that was not full lies
/// lower by the number of full rows that were below it, the rows that
/// became free at the top are empty, no row is full, and the board holds
/// ten cells less for each row taken out.
proof fn lemma_cleared(old: Board, new: Board)
    requires
        cleared_above(old, new, 0),
    ensures
        0 <= old.full_below(32) <= 32,
        forall|x: int, y: int|
            0 <= x < 10 && 0 <= y < 32 && !old.full_row(y) ==> new.occ(x, y - old.full_below(y))
                == #[trigger] old.occ(x, y),
        forall|x: int, k: int| k >= 32 - old.full_below(32) ==> !#[trigger] new.occ(x, k),
        forall|y: int| !#[trigger] new.full_row(y),
        new.cell_count() == old.cell_count() - 10 * old.full_below(32),
        old.wf() ==> new.wf(),
{
    reveal(cleared_above);
    lemma_full_below_step(old, 0, 32);
    assert(old.full_below(0) == 0);
    assert forall|x: int, y: int| 0 <= x < 10 && 0 <= y < 32 && !old.full_row(y) implies new.occ(
        x,
        y - old.full_below(y),
    ) == #[trigger] old.occ(x, y) by {
        assert(new.occ(x, y - (old.full_below(y) - old.full_below(0))) == old.occ(x, y));
    }
    assert forall|y: int| !#[trigger] new.full_row(y) by {
        if y < 0 {
            assert(!new.occ(0, y));
        }
    }
}

/// Clearing the lines of a board: a row that was not full comes to lie
/// lower by the number of full rows that were below it, the rows that
/// become free at the top are empty, no row is left full, and the board
/// holds ten cells less for each line.
pub proof fn lemma_spec_clear(b: Board)
    ensures
        0 <= b.full_below(32) <= 32,
        forall|x: int, y: int|
            0 <= x < 10 && 0 <= y < 32 && !b.full_row(y) ==> b.spec_clear().occ(
                x,
                y - b.full_below(y),
            ) == #[trigger] b.occ(x, y),
        forall|x: int, k: int| k >= 32 - b.full_below(32) ==> !#[trigger] b.spec_clear().occ(x, k),
        forall|y: int| !#[trigger] b.spec_clear().full_row(y),
        b.spec_clear().cell_count() == b.cell_count() - 10 * b.full_below(32),
        b.wf() ==> b.spec_clear().wf(),
{
    lemma_clear_from(b, 0);
    lemma_cleared(b, b.spec_clear());
}

/// The board that is left when the full rows from `t` upwards are taken
/// out stands in the relation that [`cleared_above`] describes.
proof fn lemma_clear_from(b: Board, t: int)
    requires
        0 <= t <= 32,
    ensures
        cleared_above(b, b.clear_from(t), t),
    decreases 32 - t,
{
    if t >= 32 {
        lemma_cleared_start(b);
    } else {
        lemma_clear_from(b, t + 1);
        if b.full_row(t) {
            let cur = b.clear_from(t + 1);
            lemma_cleared_drop(b, cur, cur.without_row(t), t);
        } else {
            lemma_cleared_keep(b, b.clear_from(t + 1), t);
        }
    }
}

/// Attack sent by a clear of one to three lines that is no T-spin, by the
/// combo count after the move; the last entry stands for every longer combo.
pub open spec fn combo_attack(clears: int, combo: int) -> int {
    let i = if combo > 9 { 9 } else { combo };
    if clears == 1 {
        [0int, 0, 1, 1, 1, 1, 2, 2, 2, 2][i]
    } else if clears == 2 {
        [1int, 1, 1, 1, 2, 2, 2, 2, 3, 3][i]
    } else if clears == 3 {
        [2int, 2, 3, 3, 4, 4, 5, 5, 6, 6][i]
    } else {
        0
    }
}

/// Attack sent by a T-spin or by a clear of four lines.
pub open spec fn bonus_attack(clears: int) -> int {
    if clears == 1 {
        2
    } else if clears == 2 {
        4
    } else if clears == 3 {
        6
    } else if clears == 4 {
        4
    } else {
        0
    }
}

/// Attack sent by a move that cleared `clears` lines, before the bonus for
/// an empty board.
pub open spec fn base_attack(clears: int, tspin: bool, combo: int) -> int {
    if clears == 0 {
        0
    } else if !tspin && clears != 4 {
        combo_attack(clears, combo)
    } else {
        bonus_attack(clears)
    }
}

/// The flat bonus for a clear that leaves the board empty.
pub const PERFECT_CLEAR_BONUS: u8 = 10;

impl StateView {
    /// The piece that `mov` places: the active piece, or, when the move
    /// begins with a hold, the held piece, or failing that the piece behind
    /// the active one.
    pub open spec fn placed_piece(self, mov: Move) -> Option<Piece> {
        if mov.spec_held() {
            match self.hold {
                Some(h) => Some(h),
                None => if self.queue.len() >= 2 {
                    Some(self.queue[1])
                } else {
                    None
                },
            }
        } else if self.queue.len() >= 1 {
            Some(self.queue[0])
        } else {
            None
        }
    }

    /// Whether `mov` can be applied: there is a piece for it to place and
    /// the piece fits on the board.
    pub open spec fn can_apply(self, mov: Move) -> bool {
        self.placed_piece(mov) matches Some(p) && self.board.fits(p, mov)
    }

    /// The queue after `mov` has taken its pieces from it.
    pub open spec fn queue_after(self, mov: Move) -> Seq<Piece> {
        if mov.spec_held() && self.hold is None {
            self.queue.subrange(2, self.queue.len() as int)
        } else if mov.spec_held() && self.queue.len() == 0 {
            self.queue
        } else {
            self.queue.subrange(1, self.queue.len() as int)
        }
    }

    /// The held piece after `mov`.
    pub open spec fn hold_after(self, mov: Move) -> Option<Piece> {
        if mov.spec_held() {
            if self.queue.len() >= 1 {
                Some(self.queue[0])
            } else {
                None
            }
        } else {
            self.hold
        }
    }

    /// The board after `mov` has placed its piece, before lines are cleared.
    pub open spec fn board_placed(self, mov: Move) -> Board {
        self.board.spec_place(self.placed_piece(mov).unwrap(), mov)
    }

    /// Whether `mov` is a T-spin: it places a T and meets the three-corner
    /// rule on the board with the piece on it.
    pub open spec fn is_tspin(self, mov: Move) -> bool {
        self.placed_piece(mov) == Some(Piece::T) && self.board_placed(mov).spec_is_tspin(mov)
    }

    /// Number of lines that `mov` clears.
    pub open spec fn clears(self, mov: Move) -> int {
        self.board_placed(mov).full_below(32)
    }

    /// Whether `mov` makes a hard clear: it clears a line as a T-spin, or
    /// four lines at once.
    pub open spec fn hard_clear(self, mov: Move) -> bool {
        self.clears(mov) > 0 && (self.is_tspin(mov) || self.clears(mov) == 4)
    }

    /// The state that `mov` leads to.
    ///
    /// A move that clears a line adds one to the combo; a move that clears
    /// none sets the combo back to zero. A hard clear adds one to the
    /// back-to-back count, any other clear sets it back to zero, and a
    /// move that clears nothing leaves it as it is. The counters stop at
    /// 255.
    pub open spec fn apply(self, mov: Move) -> StateView {
        let clears = self.clears(mov);
        StateView {
            board: self.board_placed(mov).spec_clear(),
            queue: self.queue_after(mov),
            hold: self.hold_after(mov),
            b2b: if self.hard_clear(mov) {
                if self.b2b < 255 {
                    (self.b2b + 1) as u8
                } else {
                    255
                }
            } else if clears > 0 {
                0
            } else {
                self.b2b
            },
            combo: if clears > 0 {
                if self.combo < 255 {
                    (self.combo + 1) as u8
                } else {
                    255
                }
            } else {
                0
            },
        }
    }

    /// The statistics of `mov`: the attack it sends, with the bonus for an
    /// empty board, the lines it clears, and whether the clear was a hard
    /// one.
    pub open spec fn stats(self, mov: Move) -> MoveStats {
        let next = self.apply(mov);
        let clears = self.clears(mov);
        let base = base_attack(clears, self.is_tspin(mov), next.combo as int);
        MoveStats {
            attacks: if clears > 0 && next.board.is_empty() {
                (base + PERFECT_CLEAR_BONUS) as u8
            } else {
                base as u8
            },
            ds: clears as u8,
            tspin: self.hard_clear(mov),
        }
    }
}

/// A lookup in one row of the combo table.
fn combo_entry(row: &[u8; 10], combo: u8) -> (a: u8)
    ensures
        a == row[if combo > 9 { 9int } else { combo as int }],
{
    if combo > 9 {
        row[9]
    } else {
        row[combo as usize]
    }
}

impl State {
    /// Number of pieces in the queue.
    pub fn queue_len(&self) -> (n: usize)
        ensures
            n == self@.queue.len(),
    {
        self.queue.len()
    }

    /// The piece that `mov` would place, if there is one.
    pub fn placed_piece(&self, mov: &Move) -> (p: Option<Piece>)
        ensures
            p == self@.placed_piece(*mov),
    {
        if mov.held() {
            match self.hold {
                Some(h) => Some(h),
                None => if self.queue.len() >= 2 {
                    Some(self.queue[1])
                } else {
                    None
                },
            }
        } else if self.queue.len() >= 1 {
            Some(self.queue[0])
        } else {
            None
        }
    }

    /// Whether `mov` can be applied to this state.
    pub fn can_apply(&self, mov: &Move) -> (b: bool)
        requires
            self@.wf(),
        ensures
            b == self@.can_apply(*mov),
    {
        match self.placed_piece(mov) {
            Some(p) => self.board.can_place(p, mov),
            None => false,
        }
    }

    /// Applies `mov` and returns the state it leads to, the number of lines
    /// it cleared and whether it was a T-spin.
    pub fn apply_move_return_clears(self, mov: &Move) -> (out: (Self, u32, bool))
        requires
            self@.wf(),
            self@.can_apply(*mov),
        ensures
            out.0@ == self@.apply(*mov),
            out.0@.wf(),
            out.1 == self@.clears(*mov),
            out.1 <= 20,
            out.2 == self@.is_tspin(*mov),
    {
        let mut state = self;
        let ghost before = state@;
        let placed = if mov.held() {
            match state.hold {
                Some(hold) => {
                    state.hold = state.queue.pop_front();
                    hold
                },
                None => {
                    state.hold = state.queue.pop_front();
                    let next = state.queue.pop_front();
                    assert(state.queue@ =~= before.queue.subrange(2, before.queue.len() as int));
                    match next {
                        Some(p) => p,
                        None => Piece::Empty,
                    }
                },
            }
        } else {
            match state.queue.pop_front() {
                Some(p) => p,
                None => Piece::Empty,
            }
        };
        assert(Some(placed) == before.placed_piece(*mov));
        assert(state.queue@ == before.queue_after(*mov));
        assert(state.hold == before.hold_after(*mov));
        state.board.place(placed, mov);
        let is_tspin = placed == Piece::T && state.board.is_tspin(mov);
        let ghost full = state.board;
        let clears = state.board.clear();
        proof {
            lemma_full_rows_low(full);
        }
        if clears > 0 {
            state.combo = if state.combo < 255 { state.combo + 1 } else { 255 };
            if is_tspin || clears == 4 {
                state.b2b = if state.b2b < 255 { state.b2b + 1 } else { 255 };
            } else {
                state.b2b = 0;
            }
        } else {
            state.combo = 0;
        }
        (state, clears, is_tspin)
    }

    /// Applies `mov` and returns the state it leads to with the statistics
    /// of the move.
    pub fn apply_move_with_stats(self, mov: &Move) -> (out: (Self, MoveStats))
        requires
            self@.wf(),
            self@.can_apply(*mov),
        ensures
            out.0@ == self@.apply(*mov),
            out.0@.wf(),
            out.1 == self@.stats(*mov),
    {
        let ghost before = self@;
        let (state, clears, was_tspin) = self.apply_move_return_clears(mov);
        let basic1: [u8; 10] = [0, 0, 1, 1, 1, 1, 2, 2, 2, 2];
        let basic2: [u8; 10] = [1, 1, 1, 1, 2, 2, 2, 2, 3, 3];
        let basic3: [u8; 10] = [2, 2, 3, 3, 4, 4, 5, 5, 6, 6];
        let mut attacks: u8 = if clears == 0 {
            0
        } else if !was_tspin && clears != 4 {
            if clears == 1 {
                combo_entry(&basic1, state.combo)
            } else if clears == 2 {
                combo_entry(&basic2, state.combo)
            } else if clears == 3 {
                combo_entry(&basic3, state.combo)
            } else {
                0
            }
        } else {
            if clears == 1 {
                2
            } else if clears == 2 {
                4
            } else if clears == 3 {
                6
            } else if clears == 4 {
                4
            } else {
                0
            }
        };
        assert(attacks == base_attack(clears as int, was_tspin, state.combo as int));
        assert(attacks <= 6);
        if clears > 0 && state.board.all_clear() {
            attacks += PERFECT_CLEAR_BONUS;
        }
        let stats = MoveStats {
            attacks,
            ds: clears as u8,
            tspin: clears > 0 && (was_tspin || clears == 4),
        };
        (state, stats)
    }

    /// Applies `mov` and returns the state it leads to.
    pub fn apply_move(self, mov: &Move) -> (out: Self)
        requires
            self@.wf(),
            self@.can_apply(*mov),
        ensures
            out@ == self@.apply(*mov),
            out@.wf(),
    {
        self.apply_move_return_clears(mov).0
    }
}

impl Board {
    /// Whether no cell of the board is occupied.
    pub fn all_clear(&self) -> (b: bool)
        ensures
            b == self.is_empty(),
    {
        let mut x: usize = 0;
        while x < 10
            invariant
                x <= 10,
                forall|k: int| 0 <= k < x ==> #[trigger] self.v[k] == 0,
            decreases 10 - x,
        {
            if self.v[x] != 0 {
                return false;
            }
            x += 1;
        }
        true
    }
}

/// On a well-formed board only the twenty rows of the field can be full.
pub proof fn lemma_full_rows_low(b: Board)
    requires
        b.wf(),
    ensures
        b.full_below(32) <= 20,
        b.full_below(32) == b.full_below(20),
{
    assert forall|y: int| 20 <= y < 32 implies !b.full_row(y) by {
        bits::lemma_low_column(b.v[0]);
    }
    assert(b.full_below(32) == b.full_below(20)) by {
        reveal_with_fuel(Board::full_below, 13);
    }
    lemma_full_below_step(b, 0, 20);
    assert(b.full_below(0) == 0);
}

} // verus!
