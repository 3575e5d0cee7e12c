//! The textual diagram of a board and of a state: twenty rows of ten cells,
//! top row first, `#` for an occupied cell and `.` for a free one.
use std::collections::VecDeque;
use vstd::prelude::*;

use super::bits;
use super::{Board, Piece, State, StateView};

verus! {

/// Whether a character of a diagram stands for a cell.
pub open spec fn is_cell(c: char) -> bool {
    c == '#' || c == '.'
}

/// The cells that a text draws, in the order of the text: `true` for an
/// occupied cell. Every other character is passed over.
pub open spec fn cells_of(s: Seq<char>) -> Seq<bool>
    decreases s.len(),
{
    if s.len() == 0 {
        Seq::empty()
    } else if is_cell(s.last()) {
        cells_of(s.drop_last()).push(s.last() == '#')
    } else {
        cells_of(s.drop_last())
    }
}

/// Whether the cells `t` draw the cell `(x, y)` as occupied: the first ten
/// cells are the top row, row 19, and only the first two hundred count.
pub open spec fn drawn(t: Seq<bool>, x: int, y: int) -> bool {
    0 <= x < 10 && 0 <= y < 20 && (19 - y) * 10 + x < t.len() && t[(19 - y) * 10 + x]
}

impl Board {
    /// Reads a board from its diagram. Cells that the text does not draw
    /// are free.
    pub fn from_str(s: &str) -> (b: Self)
        ensures
            b.wf(),
            forall|x: int, y: int| b.occ(x, y) == drawn(cells_of(s@), x, y),
    {
        let mut b = Board { v: [0u32; 10] };
        let mut n: usize = 0;
        proof {
            bits::lemma_bit_zero();
        }
        for c in it: s.chars()
            invariant
                it.seq() == s@,
                n <= 200,
                n <= it.index(),
                b.wf(),
                n < 200 ==> n == cells_of(s@.take(it.index())).len(),
                n == 200 ==> cells_of(s@.take(it.index())).len() >= 200,
                forall|x: int, y: int|
                    b.occ(x, y) == drawn(cells_of(s@.take(it.index())), x, y),
        {
            let ghost i = it.index();
            let ghost before = cells_of(s@.take(i));
            proof {
                assert(s@.take(i + 1).drop_last() =~= s@.take(i));
                assert(s@.take(i + 1).last() == c);
            }
            if c == '#' || c == '.' {
                if n < 200 {
                    if c == '#' {
                        let x: usize = n % 10;
                        let y: usize = 19 - n / 10;
                        let col: u32 = b.v[x];
                        let ghost old_b = b;
                        b.v[x] = col | (1u32 << (y as u32));
                        proof {
                            bits::lemma_bit_or(col, 1u32 << (y as u32));
                            bits::lemma_bit_single(y as u32);
                            bits::lemma_set_low_bit(col, y as u32);
                            assert forall|cx: int, cy: int|
                                b.occ(cx, cy) == drawn(before.push(true), cx, cy) by {
                                assert(old_b.occ(cx, cy) == drawn(before, cx, cy));
                                if cx == x {
                                    assert(b.v[cx] == col | (1u32 << (y as u32)));
                                } else if 0 <= cx < 10 {
                                    assert(b.v[cx] == old_b.v[cx]);
                                }
                            }
                        }
                    }
                    n += 1;
                }
            }
        }
        proof {
            assert(s@.take(s@.len() as int) =~= s@);
        }
        b
    }
}

/// Whether a character is blank: a space, a tab, a carriage return or a
/// line feed.
pub open spec fn is_blank(c: char) -> bool {
    c == ' ' || c == '\t' || c == '\r' || c == '\n'
}

/// The first position from `i` on that does not hold a blank character, or
/// the length of the text.
pub open spec fn skip_blank(t: Seq<char>, i: int) -> int
    decreases t.len() - i,
{
    if i < 0 || i >= t.len() || !is_blank(t[i]) {
        i
    } else {
        skip_blank(t, i + 1)
    }
}

/// The first position from `i` on that holds a line feed, or the length of
/// the text: the end of the line that `i` lies in.
pub open spec fn line_end(t: Seq<char>, i: int) -> int
    decreases t.len() - i,
{
    if i < 0 || i >= t.len() || t[i] == '\n' {
        i
    } else {
        line_end(t, i + 1)
    }
}

/// Where line `k` of the text begins, counted from the line that begins at
/// `i`. Behind the last line every line begins at the end of the text and
/// is empty.
pub open spec fn line_start(t: Seq<char>, i: int, k: int) -> int
    decreases k,
{
    if k <= 0 {
        i
    } else {
        let e = line_end(t, line_start(t, i, k - 1));
        if e < t.len() {
            e + 1
        } else {
            e
        }
    }
}

/// The position behind the last character of `t[lo..hi]` that is not
/// blank, or `lo` when there is none.
pub open spec fn trim_end(t: Seq<char>, lo: int, hi: int) -> int
    decreases hi - lo,
{
    if hi <= lo || !is_blank(t[hi - 1]) {
        hi
    } else {
        trim_end(t, lo, hi - 1)
    }
}

/// Whether a character is a decimal digit.
pub open spec fn is_digit(c: char) -> bool {
    '0' <= c <= '9'
}

/// Where the digits begin that end at `hi` in `t[lo..hi]`.
pub open spec fn digits_start(t: Seq<char>, lo: int, hi: int) -> int
    decreases hi - lo,
{
    if hi <= lo || !is_digit(t[hi - 1]) {
        hi
    } else {
        digits_start(t, lo, hi - 1)
    }
}

/// The number that the digits `t[lo..hi]` write.
pub open spec fn digits_value(t: Seq<char>, lo: int, hi: int) -> int
    decreases hi - lo,
{
    if hi <= lo {
        0
    } else {
        10 * digits_value(t, lo, hi - 1) + (t[hi - 1] as int - '0' as int)
    }
}

/// The number below 256 that stands at the end of the line `t[lo..hi]`,
/// behind a space or at the beginning of the line, if there is one.
pub open spec fn number_at_end(t: Seq<char>, lo: int, hi: int) -> Option<u8> {
    let e = trim_end(t, lo, hi);
    let d = digits_start(t, lo, e);
    if d < e && e - d <= 3 && (d == lo || t[d - 1] == ' ') && digits_value(t, d, e) <= 255 {
        Some(digits_value(t, d, e) as u8)
    } else {
        None
    }
}

/// The piece that a letter stands for.
pub open spec fn piece_of(c: char) -> Option<Piece> {
    if c == 'L' {
        Some(Piece::L)
    } else if c == 'J' {
        Some(Piece::J)
    } else if c == 'S' {
        Some(Piece::S)
    } else if c == 'Z' {
        Some(Piece::Z)
    } else if c == 'T' {
        Some(Piece::T)
    } else if c == 'I' {
        Some(Piece::I)
    } else if c == 'O' {
        Some(Piece::O)
    } else {
        None
    }
}

/// The piece whose letter is the last character of the line `t[lo..hi]`
/// that is not blank, if that character is the letter of a piece.
pub open spec fn piece_at_end(t: Seq<char>, lo: int, hi: int) -> Option<Piece> {
    let e = trim_end(t, lo, hi);
    if e > lo {
        piece_of(t[e - 1])
    } else {
        None
    }
}

/// The bounds of line `k` of the text `t`, counted from its first
/// character that is not blank.
pub open spec fn line_bounds(t: Seq<char>, k: int) -> (int, int) {
    let lo = line_start(t, skip_blank(t, 0), k);
    (lo, line_end(t, lo))
}

/// The pieces at the ends of the lines `from..to` of the text, in order.
pub open spec fn queue_of(t: Seq<char>, from: int, to: int) -> Seq<Piece>
    decreases to - from,
{
    if to <= from {
        Seq::empty()
    } else {
        let b = line_bounds(t, to - 1);
        match piece_at_end(t, b.0, b.1) {
            Some(p) => queue_of(t, from, to - 1).push(p),
            None => queue_of(t, from, to - 1),
        }
    }
}

/// The first line of the pieces of the queue in a diagram of a state.
pub const QUEUE_FIRST_LINE: usize = 5;

/// The line behind the pieces of the queue in a diagram of a state.
pub const QUEUE_END_LINE: usize = 10;

/// The line of the held piece in a diagram of a state.
pub const HOLD_LINE: usize = 3;

/// Whether a text is the diagram of a state: its first two lines end in a
/// number below 256.
pub open spec fn is_diagram(t: Seq<char>) -> bool {
    let b0 = line_bounds(t, 0);
    let b1 = line_bounds(t, 1);
    number_at_end(t, b0.0, b0.1) is Some && number_at_end(t, b1.0, b1.1) is Some
}

/// The state that a diagram draws.
///
/// The cells of the text draw the board. Lines count from the first
/// character of the text that is not blank. Line 0 ends in the
/// back-to-back count and line 1 in the combo count. Line 3 ends in the
/// letter of the held piece, or in anything else when nothing is held.
/// Lines 5 to 9 each end in the letter of a piece of the queue, or in
/// anything else.
pub open spec fn state_of(t: Seq<char>, board: Board) -> StateView {
    let b0 = line_bounds(t, 0);
    let b1 = line_bounds(t, 1);
    let b3 = line_bounds(t, HOLD_LINE as int);
    StateView {
        board,
        queue: queue_of(t, QUEUE_FIRST_LINE as int, QUEUE_END_LINE as int),
        hold: piece_at_end(t, b3.0, b3.1),
        b2b: number_at_end(t, b0.0, b0.1).unwrap(),
        combo: number_at_end(t, b1.0, b1.1).unwrap(),
    }
}

/// The first position from `i` on that does not hold a blank character.
fn find_text(t: &Vec<char>, i: usize) -> (j: usize)
    requires
        i <= t@.len(),
    ensures
        j == skip_blank(t@, i as int),
        i <= j <= t@.len(),
{
    let mut j: usize = i;
    while j < t.len() && (t[j] == ' ' || t[j] == '\t' || t[j] == '\r' || t[j] == '\n')
        invariant
            i <= j <= t@.len(),
            skip_blank(t@, i as int) == skip_blank(t@, j as int),
        decreases t@.len() - j,
    {
        j += 1;
    }
    j
}

/// The end of the line that `i` lies in.
fn find_line_end(t: &Vec<char>, i: usize) -> (j: usize)
    requires
        i <= t@.len(),
    ensures
        j == line_end(t@, i as int),
        i <= j <= t@.len(),
{
    let mut j: usize = i;
    while j < t.len() && t[j] != '\n'
        invariant
            i <= j <= t@.len(),
            line_end(t@, i as int) == line_end(t@, j as int),
        decreases t@.len() - j,
    {
        j += 1;
    }
    j
}

/// The position behind the last character of `t[lo..hi]` that is not
/// blank.
fn find_trim_end(t: &Vec<char>, lo: usize, hi: usize) -> (e: usize)
    requires
        lo <= hi <= t@.len(),
    ensures
        e == trim_end(t@, lo as int, hi as int),
        lo <= e <= hi,
{
    let mut e: usize = hi;
    while e > lo && (t[e - 1] == ' ' || t[e - 1] == '\t' || t[e - 1] == '\r' || t[e - 1] == '\n')
        invariant
            lo <= e <= hi <= t@.len(),
            trim_end(t@, lo as int, hi as int) == trim_end(t@, lo as int, e as int),
        decreases e - lo,
    {
        e -= 1;
    }
    e
}

/// Reads the number at the end of the line `t[lo..hi]`.
fn read_number(t: &Vec<char>, lo: usize, hi: usize) -> (n: Option<u8>)
    requires
        lo <= hi <= t@.len(),
    ensures
        n == number_at_end(t@, lo as int, hi as int),
{
    let e: usize = find_trim_end(t, lo, hi);
    let mut d: usize = e;
    while d > lo && '0' <= t[d - 1] && t[d - 1] <= '9'
        invariant
            lo <= d <= e <= t@.len(),
            digits_start(t@, lo as int, e as int) == digits_start(t@, lo as int, d as int),
            forall|k: int| d <= k < e ==> is_digit(#[trigger] t@[k]),
        decreases d - lo,
    {
        d -= 1;
    }
    if !(d < e && e - d <= 3 && (d == lo || t[d - 1] == ' ')) {
        return None;
    }
    let mut value: u32 = 0;
    let mut k: usize = d;
    while k < e
        invariant
            d <= k <= e <= t@.len(),
            e - d <= 3,
            forall|j: int| d <= j < e ==> is_digit(#[trigger] t@[j]),
            value == digits_value(t@, d as int, k as int),
            value <= 999,
            k - d <= 2 ==> value <= 99,
            k - d <= 1 ==> value <= 9,
            k == d ==> value == 0,
        decreases e - k,
    {
        assert(is_digit(t@[k as int]));
        let digit: u32 = t[k] as u32 - '0' as u32;
        value = 10 * value + digit;
        k += 1;
    }
    if value <= 255 {
        Some(value as u8)
    } else {
        None
    }
}

/// The piece that a letter stands for.
fn read_piece(c: char) -> (p: Option<Piece>)
    ensures
        p == piece_of(c),
        p matches Some(q) ==> q.is_tetromino(),
{
    if c == 'L' {
        Some(Piece::L)
    } else if c == 'J' {
        Some(Piece::J)
    } else if c == 'S' {
        Some(Piece::S)
    } else if c == 'Z' {
        Some(Piece::Z)
    } else if c == 'T' {
        Some(Piece::T)
    } else if c == 'I' {
        Some(Piece::I)
    } else if c == 'O' {
        Some(Piece::O)
    } else {
        None
    }
}

/// Reads the piece at the end of the line `t[lo..hi]`.
fn read_piece_at_end(t: &Vec<char>, lo: usize, hi: usize) -> (p: Option<Piece>)
    requires
        lo <= hi <= t@.len(),
    ensures
        p == piece_at_end(t@, lo as int, hi as int),
        p matches Some(q) ==> q.is_tetromino(),
{
    let e: usize = find_trim_end(t, lo, hi);
    if e > lo {
        read_piece(t[e - 1])
    } else {
        None
    }
}

/// The characters of a text.
fn chars_of(s: &str) -> (t: Vec<char>)
    ensures
        t@ == s@,
{
    let mut t: Vec<char> = Vec::new();
    for c in it: s.chars()
        invariant
            it.seq() == s@,
            t@ == s@.take(it.index()),
    {
        t.push(c);
        assert(t@ =~= s@.take(it.index() + 1));
    }
    assert(s@.take(s@.len() as int) =~= s@);
    t
}

impl State {
    /// Reads a state from its diagram, if the text is one.
    pub fn parse(s: &str) -> (out: Option<State>)
        ensures
            out is Some <==> is_diagram(s@),
            out matches Some(state) ==> state@.wf() && exists|board: Board|
                #![trigger state_of(s@, board)]
                {
                    &&& state@ == state_of(s@, board)
                    &&& board.wf()
                    &&& forall|x: int, y: int| board.occ(x, y) == drawn(cells_of(s@), x, y)
                },
    {
        let board = Board::from_str(s);
        let t = chars_of(s);
        let first: usize = find_text(&t, 0);
        let mut b2b: Option<u8> = None;
        let mut combo: Option<u8> = None;
        let mut hold: Option<Piece> = None;
        let mut queue: VecDeque<Piece> = VecDeque::new();
        let mut lo: usize = first;
        let mut k: usize = 0;
        while k < QUEUE_END_LINE
            invariant
                k <= QUEUE_END_LINE,
                first == skip_blank(t@, 0),
                lo == line_start(t@, first as int, k as int),
                lo <= t@.len(),
                k > 0 ==> b2b == number_at_end(t@, line_bounds(t@, 0).0, line_bounds(t@, 0).1),
                k > 1 ==> combo == number_at_end(t@, line_bounds(t@, 1).0, line_bounds(t@, 1).1),
                k > HOLD_LINE ==> hold == piece_at_end(
                    t@,
                    line_bounds(t@, HOLD_LINE as int).0,
                    line_bounds(t@, HOLD_LINE as int).1,
                ),
                k <= HOLD_LINE ==> hold is None,
                hold matches Some(q) ==> q.is_tetromino(),
                queue@ == queue_of(
                    t@,
                    QUEUE_FIRST_LINE as int,
                    if k >= QUEUE_FIRST_LINE {
                        k as int
                    } else {
                        QUEUE_FIRST_LINE as int
                    },
                ),
                forall|j: int| 0 <= j < queue@.len() ==> (#[trigger] queue@[j]).is_tetromino(),
            decreases QUEUE_END_LINE - k,
        {
            let hi: usize = find_line_end(&t, lo);
            assert(line_bounds(t@, k as int) == (lo as int, hi as int));
            if k == 0 {
                b2b = read_number(&t, lo, hi);
            } else if k == 1 {
                combo = read_number(&t, lo, hi);
            } else if k == HOLD_LINE {
                hold = read_piece_at_end(&t, lo, hi);
            } else if k >= QUEUE_FIRST_LINE {
                match read_piece_at_end(&t, lo, hi) {
                    Some(p) => {
                        queue.push_back(p);
                    },
                    None => {},
                }
            }
            lo = if hi < t.len() {
                hi + 1
            } else {
                hi
            };
            k += 1;
        }
        match (b2b, combo) {
            (Some(b2b), Some(combo)) => {
                let state = State { board, queue, hold, b2b, combo };
                assert(state@ == state_of(s@, board));
                Some(state)
            },
            _ => None,
        }
    }

    /// Reads a state from its diagram.
    pub fn from_str(s: &str) -> (state: State)
        requires
            is_diagram(s@),
        ensures
            state@.wf(),
            exists|board: Board|
                #![trigger state_of(s@, board)]
                {
                    &&& state@ == state_of(s@, board)
                    &&& board.wf()
                    &&& forall|x: int, y: int| board.occ(x, y) == drawn(cells_of(s@), x, y)
                },
    {
        match State::parse(s) {
            Some(state) => state,
            None => State::default(),
        }
    }
}

} // verus!
