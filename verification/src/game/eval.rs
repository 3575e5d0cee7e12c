//! The heuristic evaluator: scores the position that a move leads to.
//!
//! Scores are exact integers in units of `1 / SCORE_SCALE`, so that the
//! averages over nine or ten columns that enter the score need no rounding.
use vstd::prelude::*;
use vstd::std_specs::bits::{axiom_u32_leading_zeros, u32_leading_zeros};

use super::bits::count_below;
use super::{Board, MoveStats, State, StateView};

verus! {

/// The weighting profile that the evaluator is asked for.
#[derive(Clone, Copy, PartialEq, Eq, Debug, Structural)]
pub enum Mode {
    Norm,
    DS,
    Attack,
}

/// Number of score units that make up one point.
pub const SCORE_SCALE: i64 = 8100;

/// The thresholds of a weighting profile.
pub struct Factors {
    /// How far, in rows, a column must lie below the average height to
    /// count as a well.
    pub well_threshold: i64,
    /// Holes whose cover lies deeper than this below the top of their
    /// column are passed over when the cover is met.
    pub hole_depth_relevancy_threshold: u32,
}

/// The weights of a weighting profile, in points.
pub struct Weights {
    pub hole: i64,
    pub hole_depth: i64,
    pub h_local_deviation: i64,
    pub h_global_deviation: i64,
    pub well_v: i64,
    pub well_parity: i64,
    pub well_odd_par: i64,
    pub well_flat_parity: i64,
    pub tspin_bonus: i64,
    pub tspin_score: i64,
    pub average_h: i64,
    pub attack: i64,
    pub downstack: i64,
    pub eff: i64,
}

/// The thresholds of the attack profile.
pub open spec fn spec_factors_atk() -> Factors {
    Factors { well_threshold: 3, hole_depth_relevancy_threshold: 6 }
}

/// The thresholds of the downstack profile.
pub open spec fn spec_factors_ds() -> Factors {
    Factors { well_threshold: 20, hole_depth_relevancy_threshold: 6 }
}

/// The thresholds of the attack profile.
pub fn factors_atk() -> (f: Factors)
    ensures
        f == spec_factors_atk(),
{
    Factors { well_threshold: 3, hole_depth_relevancy_threshold: 6 }
}

/// The thresholds of the downstack profile.
pub fn factors_ds() -> (f: Factors)
    ensures
        f == spec_factors_ds(),
{
    Factors { well_threshold: 20, hole_depth_relevancy_threshold: 6 }
}

/// The weights of the attack profile.
pub open spec fn spec_weights_atk() -> Weights {
    Weights {
        hole: -150i64,
        hole_depth: -12i64,
        h_local_deviation: -6i64,
        h_global_deviation: -5i64,
        well_v: 0,
        well_parity: 0,
        well_odd_par: 0,
        well_flat_parity: 0,
        tspin_bonus: 25,
        tspin_score: 25,
        average_h: 0,
        attack: 100,
        downstack: 10,
        eff: 130,
    }
}

/// The weights of the downstack profile.
pub open spec fn spec_weights_ds() -> Weights {
    Weights {
        hole: -150i64,
        hole_depth: -10i64,
        h_local_deviation: -20i64,
        h_global_deviation: -8i64,
        well_v: 0,
        well_parity: 0,
        well_odd_par: 0,
        well_flat_parity: 0,
        tspin_bonus: 0,
        tspin_score: 0,
        average_h: -20i64,
        attack: 0,
        downstack: 100,
        eff: 0,
    }
}

/// The weights of the attack profile.
pub fn weights_atk() -> (w: Weights)
    ensures
        w == spec_weights_atk(),
{
    Weights {
        hole: -150i64,
        hole_depth: -12i64,
        h_local_deviation: -6i64,
        h_global_deviation: -5i64,
        well_v: 0,
        well_parity: 0,
        well_odd_par: 0,
        well_flat_parity: 0,
        tspin_bonus: 25,
        tspin_score: 25,
        average_h: 0,
        attack: 100,
        downstack: 10,
        eff: 130,
    }
}

/// The weights of the downstack profile.
pub fn weights_ds() -> (w: Weights)
    ensures
        w == spec_weights_ds(),
{
    Weights {
        hole: -150i64,
        hole_depth: -10i64,
        h_local_deviation: -20i64,
        h_global_deviation: -8i64,
        well_v: 0,
        well_parity: 0,
        well_odd_par: 0,
        well_flat_parity: 0,
        tspin_bonus: 0,
        tspin_score: 0,
        average_h: -20i64,
        attack: 0,
        downstack: 100,
        eff: 0,
    }
}

/// Average height, in rows, from which the normal mode plays by the
/// downstack profile.
pub const DS_HEIGHT_THRESHOLD: u32 = 10;

/// What the normal mode pays, in points, for playing by the downstack
/// profile.
pub const DS_MODE_PENALTY: i64 = 0;

/// Whether the profile for `mode` at a sum of column heights of `sum` is
/// the downstack profile.
pub open spec fn plays_downstack(mode: Mode, sum: int) -> bool {
    match mode {
        Mode::Norm => sum >= 10 * DS_HEIGHT_THRESHOLD,
        Mode::DS => true,
        Mode::Attack => false,
    }
}

/// What a well in column `x` is worth by its position alone, in points.
pub open spec fn well_placement(x: int) -> int {
    [-35int, -70, 0, 70, 0, 0, 70, 0, -70, -35][x]
}

impl Board {
    /// Height of column `x`: the number of rows up to and including the
    /// highest occupied cell.
    pub open spec fn spec_height(&self, x: int) -> int {
        32 - u32_leading_zeros(self.v[x])
    }

    /// Whether column `x` has no occupied cell in row `y` or above it.
    pub open spec fn open_above(&self, x: int, y: int) -> bool {
        self.spec_height(x) <= y
    }

    /// Height of column `x`.
    pub fn height(&self, x: usize) -> (h: u32)
        requires
            x < 10,
        ensures
            h == self.spec_height(x as int),
            h <= 32,
    {
        proof {
            axiom_u32_leading_zeros(self.v[x as int]);
        }
        32 - self.v[x].leading_zeros()
    }

    /// The heights of the ten columns.
    pub fn heights(&self) -> (h: [u32; 10])
        ensures
            forall|x: int| 0 <= x < 10 ==> #[trigger] h[x] == self.spec_height(x),
            forall|x: int| 0 <= x < 10 ==> #[trigger] h[x] <= 32,
    {
        [
            self.height(0),
            self.height(1),
            self.height(2),
            self.height(3),
            self.height(4),
            self.height(5),
            self.height(6),
            self.height(7),
            self.height(8),
            self.height(9),
        ]
    }
}

/// A place where a T piece could be spun in: the column of its centre,
/// whether exactly one of the two cells above its arms is occupied, and how
/// many of its two rows would be completed.
#[derive(Clone, Copy, PartialEq, Eq, Debug, Structural)]
pub struct Tspin {
    pub x: usize,
    pub overhang: bool,
    pub rows: u8,
}

/// The T-spin places of a board: their columns in the order in which they
/// are found, row by row from the floor and left to right, the number of
/// them with an overhang, and their total score.
pub struct Tspins {
    pub vx: Vec<usize>,
    pub overhangs: u32,
    pub score: u32,
}

impl Board {
    /// Whether row `y` is blocked in every column but those from `lo` to
    /// `hi`.
    pub open spec fn filled_but(&self, y: int, lo: int, hi: int) -> bool {
        forall|i: int| 0 <= i < 10 && !(lo <= i <= hi) ==> #[trigger] self.spec_occupied(i, y)
    }

    /// Whether row `y` is blocked in every column but those from `lo` to
    /// `hi`.
    pub fn row_filled_but(&self, y: i32, lo: usize, hi: usize) -> (b: bool)
        ensures
            b == self.filled_but(y as int, lo as int, hi as int),
    {
        let mut i: usize = 0;
        while i < 10
            invariant
                i <= 10,
                forall|k: int|
                    0 <= k < i && !(lo <= k <= hi) ==> #[trigger] self.spec_occupied(k, y as int),
            decreases 10 - i,
        {
            if !(lo <= i && i <= hi) && !self.occupied(i as i32, y) {
                assert(!self.spec_occupied(i as int, y as int));
                return false;
            }
            i += 1;
        }
        true
    }
}

/// Whether the cells around `(x, y)` have the shape of a T-spin place: the
/// centre, the cells above and below it and the two arms are free, one of
/// the cells above the arms is free, and both cells below the arms are
/// blocked.
pub open spec fn slot_shape(b: Board, x: int, y: int) -> bool {
    &&& !b.spec_occupied(x, y)
    &&& !b.spec_occupied(x, y - 1)
    &&& !b.spec_occupied(x, y + 1)
    &&& !b.spec_occupied(x - 1, y)
    &&& !b.spec_occupied(x + 1, y)
    &&& (!b.spec_occupied(x - 1, y + 1) || !b.spec_occupied(x + 1, y + 1))
    &&& b.spec_occupied(x - 1, y - 1)
    &&& b.spec_occupied(x + 1, y - 1)
}

/// Number of the three columns around `x` that are open from row `y`
/// upwards.
pub open spec fn slot_access(b: Board, x: int, y: int) -> int {
    (if b.open_above(x, y) { 1int } else { 0int }) + (if b.open_above(x - 1, y) { 1int } else { 0int })
        + (if b.open_above(x + 1, y) { 1int } else { 0int })
}

/// The T-spin place with its centre at `(x, y)`, if there is one.
///
/// The cells must have the shape of a place; at least two of the three
/// columns must be open above, and all three unless there is an overhang;
/// and the place must complete at least one of its two rows.
pub open spec fn spec_slot(b: Board, x: int, y: int) -> Option<Tspin> {
    if x <= 0 || x >= 9 || y <= 0 || !slot_shape(b, x, y) {
        None
    } else {
        let overhang = b.spec_occupied(x - 1, y + 1) != b.spec_occupied(x + 1, y + 1);
        let access = slot_access(b, x, y);
        let row1 = b.filled_but(y, x - 1, x + 1);
        let row2 = b.filled_but(y - 1, x, x);
        if access < 2 || (access == 2 && !overhang) {
            None
        } else if !row1 && !row2 {
            None
        } else {
            Some(
                Tspin {
                    x: x as usize,
                    overhang,
                    rows: ((if row1 { 1int } else { 0int }) + (if row2 { 1int } else { 0int })) as u8,
                },
            )
        }
    }
}

/// What a T-spin place adds to the score of the places: its rows, and one
/// for an overhang.
pub open spec fn slot_value(t: Tspin) -> int {
    t.rows + if t.overhang { 1int } else { 0int }
}

/// The columns of the T-spin places among the first `n` cells of the
/// board, counted row by row from the floor and left to right.
pub open spec fn slot_columns(b: Board, n: int) -> Seq<usize>
    decreases n,
{
    if n <= 0 {
        Seq::empty()
    } else {
        match spec_slot(b, (n - 1) % 10, (n - 1) / 10) {
            Some(t) => slot_columns(b, n - 1).push(t.x),
            None => slot_columns(b, n - 1),
        }
    }
}

/// Number of T-spin places with an overhang among the first `n` cells.
pub open spec fn slot_overhangs(b: Board, n: int) -> int
    decreases n,
{
    if n <= 0 {
        0
    } else {
        slot_overhangs(b, n - 1) + match spec_slot(b, (n - 1) % 10, (n - 1) / 10) {
            Some(t) => if t.overhang { 1int } else { 0int },
            None => 0,
        }
    }
}

/// Total score of the T-spin places among the first `n` cells.
pub open spec fn slot_score(b: Board, n: int) -> int
    decreases n,
{
    if n <= 0 {
        0
    } else {
        slot_score(b, n - 1) + match spec_slot(b, (n - 1) % 10, (n - 1) / 10) {
            Some(t) => slot_value(t),
            None => 0,
        }
    }
}

impl Tspins {
    /// Number of T-spin places.
    pub fn count(&self) -> (n: u32)
        requires
            self.vx@.len() <= u32::MAX,
        ensures
            n == self.vx@.len(),
    {
        self.vx.len() as u32
    }

    /// Whether a T-spin place has its centre in column `x`.
    pub fn contains(&self, x: usize) -> (b: bool)
        ensures
            b == self.vx@.contains(x),
    {
        let mut i: usize = 0;
        while i < self.vx.len()
            invariant
                i <= self.vx@.len(),
                forall|k: int| 0 <= k < i ==> self.vx@[k] != x,
            decreases self.vx@.len() - i,
        {
            if self.vx[i] == x {
                return true;
            }
            i += 1;
        }
        false
    }

    /// Whether these are the T-spin places of `b`.
    pub open spec fn of(&self, b: Board) -> bool {
        &&& self.vx@ == slot_columns(b, 200)
        &&& self.overhangs == slot_overhangs(b, 200)
        &&& self.score == slot_score(b, 200)
    }

    /// Finds the T-spin places of a board.
    pub fn find(board: &Board) -> (out: Self)
        ensures
            out.of(*board),
            out.vx@.len() <= 200,
            out.overhangs <= 200,
            out.score <= 600,
    {
        let mut out = Tspins { vx: Vec::new(), overhangs: 0, score: 0 };
        let mut y: i32 = 0;
        while y < 20
            invariant
                0 <= y <= 20,
                out.vx@ == slot_columns(*board, y * 10),
                out.overhangs == slot_overhangs(*board, y * 10),
                out.score == slot_score(*board, y * 10),
                out.vx@.len() <= y * 10,
                out.overhangs <= y * 10,
                out.score <= 3 * (y * 10),
            decreases 20 - y,
        {
            let mut x: i32 = 0;
            while x < 10
                invariant
                    0 <= y < 20,
                    0 <= x <= 10,
                    out.vx@ == slot_columns(*board, y * 10 + x),
                    out.overhangs == slot_overhangs(*board, y * 10 + x),
                    out.score == slot_score(*board, y * 10 + x),
                    out.vx@.len() <= y * 10 + x,
                    out.overhangs <= y * 10 + x,
                    out.score <= 3 * (y * 10 + x),
                decreases 10 - x,
            {
                assert((y * 10 + x + 1 - 1) % 10 == x && (y * 10 + x + 1 - 1) / 10 == y);
                if let Some(tspin) = Self::is_tspin(board, x, y) {
                    out.vx.push(tspin.x);
                    if tspin.overhang {
                        out.overhangs += 1;
                    }
                    out.score += tspin.rows as u32 + if tspin.overhang { 1 } else { 0 };
                }
                x += 1;
            }
            y += 1;
        }
        out
    }

    /// The T-spin place with its centre at `(x, y)`, if there is one.
    pub fn is_tspin(board: &Board, x: i32, y: i32) -> (out: Option<Tspin>)
        requires
            y < i32::MAX,
        ensures
            out == spec_slot(*board, x as int, y as int),
            out matches Some(t) ==> 1 <= t.rows <= 2,
    {
        if x <= 0 || x >= 9 || y <= 0 {
            return None;
        }
        let prelim = !board.occupied(x, y) && !board.occupied(x, y - 1) && !board.occupied(x, y + 1)
            && !board.occupied(x - 1, y) && !board.occupied(x + 1, y) && (!board.occupied(
            x - 1,
            y + 1,
        ) || !board.occupied(x + 1, y + 1)) && board.occupied(x - 1, y - 1) && board.occupied(
            x + 1,
            y - 1,
        );
        if !prelim {
            return None;
        }
        let overhang = board.occupied(x - 1, y + 1) != board.occupied(x + 1, y + 1);
        let cx: usize = x as usize;
        let mut access: u8 = 0;
        if board.height(cx) as i64 <= y as i64 {
            access += 1;
        }
        if board.height(cx - 1) as i64 <= y as i64 {
            access += 1;
        }
        if board.height(cx + 1) as i64 <= y as i64 {
            access += 1;
        }
        if access < 2 || (access == 2 && !overhang) {
            return None;
        }
        let row1 = board.row_filled_but(y, cx - 1, cx + 1);
        let row2 = board.row_filled_but(y - 1, cx, cx);
        if !row1 && !row2 {
            return None;
        }
        let rows: u8 = if row1 { 1 } else { 0 } + if row2 { 1 } else { 0 };
        Some(Tspin { x: cx, overhang, rows })
    }
}

/// The holes of one column, found by scanning it from the floor, and the
/// sum of the squares of their depths.
///
/// `col` holds the rows of the column that have not been passed yet, `h` is
/// the height of the column, `y` counts the steps of the scan and `open` is
/// the depth below the top of the column at which the free cells began that
/// the scan has passed since the last hole. A free cell is passed and
/// remembered. An occupied cell above remembered free cells closes a hole,
/// unless it lies deeper below the top than `limit`: the scan then stays on
/// it for this step. Any other occupied cell is passed.
pub open spec fn scan(col: u32, h: int, y: int, open: Option<int>, limit: int) -> (int, int)
    decreases h - y,
{
    if y >= h {
        (0, 0)
    } else if col & 1 == 0 {
        let d = if open is Some && open.unwrap() > h - y {
            open.unwrap()
        } else {
            h - y
        };
        scan(col >> 1, h, y + 1, Some(d), limit)
    } else if open is Some {
        if h - y > limit {
            scan(col, h, y + 1, open, limit)
        } else {
            let rest = scan(col >> 1, h, y + 1, None, limit);
            (rest.0 + 1, rest.1 + open.unwrap() * open.unwrap())
        }
    } else {
        scan(col >> 1, h, y + 1, None, limit)
    }
}

/// The depth that the scan remembers, as a number.
pub open spec fn depth_of(open: Option<u32>) -> Option<int> {
    match open {
        Some(d) => Some(d as int),
        None => None,
    }
}

/// The holes of a column of height `h`, and the sum of the squares of
/// their depths.
pub fn column_holes(col: u32, h: u32, limit: u32) -> (out: (u32, u32))
    requires
        h <= 32,
    ensures
        (out.0 as int, out.1 as int) == scan(col, h as int, 0, None, limit as int),
        out.0 <= 32,
        out.1 <= 32 * 1024,
{
    let mut rest: u32 = col;
    let mut holes: u32 = 0;
    let mut depth: u32 = 0;
    let mut maxd: Option<u32> = None;
    let mut y: u32 = 0;
    while y < h
        invariant
            y <= h <= 32,
            holes <= y,
            depth <= y * 1024,
            maxd matches Some(d) ==> d <= 32,
            scan(col, h as int, 0, None, limit as int) == (
                holes + scan(rest, h as int, y as int, depth_of(maxd), limit as int).0,
                depth + scan(rest, h as int, y as int, depth_of(maxd), limit as int).1,
            ),
        decreases h - y,
    {
        if rest & 1 == 0 {
            let d: u32 = match maxd {
                Some(d) => if d > h - y {
                    d
                } else {
                    h - y
                },
                None => h - y,
            };
            maxd = Some(d);
            rest = rest >> 1;
        } else {
            match maxd {
                Some(d) => {
                    if h - y > limit {
                    } else {
                        assert(d * d <= 1024) by (nonlinear_arith)
                            requires
                                d <= 32,
                        ;
                        depth += d * d;
                        holes += 1;
                        maxd = None;
                        rest = rest >> 1;
                    }
                },
                None => {
                    rest = rest >> 1;
                },
            }
        }
        y += 1;
    }
    (holes, depth)
}

/// Whether the holes of column `i` are passed over: a T-spin place has its
/// centre in a neighbouring column.
pub open spec fn beside_slot(cols: Seq<usize>, i: int) -> bool {
    cols.contains((i + 1) as usize) || (i > 0 && cols.contains((i - 1) as usize))
}

/// The holes of the first `n` columns and the sum of the squares of their
/// depths, without the columns beside a T-spin place.
pub open spec fn holes_upto(b: Board, cols: Seq<usize>, limit: int, n: int) -> (int, int)
    decreases n,
{
    if n <= 0 {
        (0, 0)
    } else {
        let rest = holes_upto(b, cols, limit, n - 1);
        if beside_slot(cols, n - 1) {
            rest
        } else {
            let here = scan(b.v[n - 1], b.spec_height(n - 1), 0, None, limit);
            (rest.0 + here.0, rest.1 + here.1)
        }
    }
}

/// The holes of the board and the sum of the squares of their depths,
/// without the columns beside a T-spin place.
pub fn count_holes(board: &Board, tspins: &Tspins, limit: u32) -> (out: (u32, u32))
    ensures
        (out.0 as int, out.1 as int) == holes_upto(*board, tspins.vx@, limit as int, 10),
        out.0 <= 320,
        out.1 <= 327680,
{
    let mut holes: u32 = 0;
    let mut depth: u32 = 0;
    let mut i: usize = 0;
    while i < 10
        invariant
            i <= 10,
            (holes as int, depth as int) == holes_upto(*board, tspins.vx@, limit as int, i as int),
            holes <= 32 * i,
            depth <= 32768 * i,
        decreases 10 - i,
    {
        let skip = tspins.contains(i + 1) || (i > 0 && tspins.contains(i - 1));
        if !skip {
            let here = column_holes(board.v[i], board.height(i), limit);
            holes += here.0;
            depth += here.1;
        }
        i += 1;
    }
    (holes, depth)
}

/// The heights of the ten columns.
pub open spec fn spec_heights(b: Board) -> Seq<int> {
    Seq::new(10, |x: int| b.spec_height(x))
}

/// Sum of the first `n` heights.
pub open spec fn sum_upto(h: Seq<int>, n: int) -> int
    decreases n,
{
    if n <= 0 {
        0
    } else {
        sum_upto(h, n - 1) + h[n - 1]
    }
}

/// The first of the lowest among the first `n` columns.
pub open spec fn first_lowest(h: Seq<int>, n: int) -> int
    decreases n,
{
    if n <= 1 {
        0
    } else {
        let m = first_lowest(h, n - 1);
        if h[n - 1] < h[m] {
            n - 1
        } else {
            m
        }
    }
}

/// The well: the first of the lowest columns, if it lies below the average
/// height by `threshold` rows or more. Without a well the result is 100.
pub open spec fn spec_well(h: Seq<int>, threshold: int) -> int {
    let m = first_lowest(h, 10);
    if sum_upto(h, 10) - 10 * h[m] >= 10 * threshold {
        m
    } else {
        100
    }
}

/// The index that stands for "no well".
pub const NO_WELL: usize = 100;

/// Sum of the heights.
fn sum_heights(h: &[u32; 10]) -> (sum: u32)
    requires
        forall|x: int| 0 <= x < 10 ==> #[trigger] h[x] <= 32,
    ensures
        sum == sum_upto(h@.map_values(|v: u32| v as int), 10),
        sum <= 320,
{
    let ghost hs = h@.map_values(|v: u32| v as int);
    let mut sum: u32 = 0;
    let mut x: usize = 0;
    while x < 10
        invariant
            x <= 10,
            hs == h@.map_values(|v: u32| v as int),
            forall|k: int| 0 <= k < 10 ==> #[trigger] h[k] <= 32,
            sum == sum_upto(hs, x as int),
            sum <= 32 * x,
        decreases 10 - x,
    {
        sum += h[x];
        x += 1;
    }
    sum
}

/// Finds the well among columns of the given heights: the first of the
/// lowest columns, if it lies below the average by `threshold` rows or
/// more; `NO_WELL` otherwise.
pub fn find_well(h: &[u32; 10], threshold: i64) -> (well: usize)
    requires
        forall|x: int| 0 <= x < 10 ==> #[trigger] h[x] <= 32,
        -0x0800_0000_0000_0000 <= threshold <= 0x0800_0000_0000_0000,
    ensures
        well == spec_well(h@.map_values(|v: u32| v as int), threshold as int),
        well < 10 || well == NO_WELL,
{
    let ghost hs = h@.map_values(|v: u32| v as int);
    let sum: u32 = sum_heights(h);
    let mut m: usize = 0;
    let mut x: usize = 1;
    while x < 10
        invariant
            1 <= x <= 10,
            m < x,
            hs == h@.map_values(|v: u32| v as int),
            m == first_lowest(hs, x as int),
        decreases 10 - x,
    {
        if h[x] < h[m] {
            m = x;
        }
        x += 1;
    }
    if sum as i64 - 10 * (h[m] as i64) >= 10 * threshold {
        m
    } else {
        NO_WELL
    }
}

/// Sum, over the first `n` columns but the well `w`, of the squares of
/// `a - d * h`.
pub open spec fn spread_upto(h: Seq<int>, w: int, a: int, d: int, n: int) -> int
    decreases n,
{
    if n <= 0 {
        0
    } else if n - 1 == w {
        spread_upto(h, w, a, d, n - 1)
    } else {
        spread_upto(h, w, a, d, n - 1) + (a - d * h[n - 1]) * (a - d * h[n - 1])
    }
}

/// Sum, over the columns from `x` on but the well `w`, of the squares of
/// the steps between neighbouring columns; `prev` is the height of the
/// last column before `x` that is not the well.
pub open spec fn steps_from(h: Seq<int>, w: int, x: int, prev: Option<int>) -> int
    decreases 10 - x,
{
    if x >= 10 {
        0
    } else if x == w {
        steps_from(h, w, x + 1, prev)
    } else {
        (match prev {
            Some(p) => (h[x] - p) * (h[x] - p),
            None => 0,
        }) + steps_from(h, w, x + 1, Some(h[x]))
    }
}

/// Sum, over the columns but the well, of the squares of `a - d * h`.
fn spread(h: &[u32; 10], well: usize, a: i64, d: i64) -> (out: i64)
    requires
        forall|x: int| 0 <= x < 10 ==> #[trigger] h[x] <= 32,
        0 <= a <= 320,
        d == 9 || d == 10,
    ensures
        out == spread_upto(h@.map_values(|v: u32| v as int), well as int, a as int, d as int, 10),
        0 <= out <= 1024000,
{
    let ghost hs = h@.map_values(|v: u32| v as int);
    let mut out: i64 = 0;
    let mut x: usize = 0;
    while x < 10
        invariant
            x <= 10,
            hs == h@.map_values(|v: u32| v as int),
            forall|k: int| 0 <= k < 10 ==> #[trigger] h[k] <= 32,
            0 <= a <= 320,
            d == 9 || d == 10,
            out == spread_upto(hs, well as int, a as int, d as int, x as int),
            0 <= out <= 102400 * x,
        decreases 10 - x,
    {
        if x != well {
            let dh: i64 = a - d * (h[x] as i64);
            assert(0 <= dh * dh <= 102400) by (nonlinear_arith)
                requires
                    -320 <= dh <= 320,
            ;
            out += dh * dh;
        }
        x += 1;
    }
    out
}

/// Sum, over the columns but the well, of the squares of the steps between
/// neighbouring columns.
fn steps(h: &[u32; 10], well: usize) -> (out: i64)
    requires
        forall|x: int| 0 <= x < 10 ==> #[trigger] h[x] <= 32,
    ensures
        out == steps_from(h@.map_values(|v: u32| v as int), well as int, 0, None),
        0 <= out <= 10240,
{
    let ghost hs = h@.map_values(|v: u32| v as int);
    let mut out: i64 = 0;
    let mut prev: Option<u32> = None;
    let mut x: usize = 0;
    while x < 10
        invariant
            x <= 10,
            hs == h@.map_values(|v: u32| v as int),
            forall|k: int| 0 <= k < 10 ==> #[trigger] h[k] <= 32,
            prev matches Some(p) ==> p <= 32,
            0 <= out <= 1024 * x,
            steps_from(hs, well as int, 0, None) == out + steps_from(
                hs,
                well as int,
                x as int,
                depth_of(prev),
            ),
        decreases 10 - x,
    {
        if x != well {
            if let Some(p) = prev {
                let d: i64 = h[x] as i64 - p as i64;
                assert(0 <= d * d <= 1024) by (nonlinear_arith)
                    requires
                        -32 <= d <= 32,
                ;
                out += d * d;
            }
            prev = Some(h[x]);
        }
        x += 1;
    }
    out
}

/// The rows that are occupied in each of the first `n` columns but the
/// well `w`.
pub open spec fn and_but(b: Board, w: int, n: int) -> u32
    decreases n,
{
    if n <= 0 {
        !0u32
    } else if n - 1 == w {
        and_but(b, w, n - 1)
    } else {
        and_but(b, w, n - 1) & b.v[n - 1]
    }
}

/// Number of set bits of a word.
pub fn count_bits(v: u32) -> (n: u32)
    ensures
        n == count_below(v, 32),
        n <= 32,
{
    let mut n: u32 = 0;
    let mut i: u32 = 0;
    while i < 32
        invariant
            i <= 32,
            n == count_below(v, i as int),
            n <= i,
        decreases 32 - i,
    {
        if (v >> i) & 1 == 1 {
            n += 1;
        }
        i += 1;
    }
    n
}

/// Number of lines that filling the well would clear: the rows that are
/// occupied in every other column.
pub fn well_value(board: &Board, well: usize) -> (n: u32)
    ensures
        n == count_below(and_but(*board, well as int, 10), 32),
        n <= 32,
{
    let mut rows: u32 = !0u32;
    let mut x: usize = 0;
    while x < 10
        invariant
            x <= 10,
            rows == and_but(*board, well as int, x as int),
        decreases 10 - x,
    {
        if x != well {
            rows = rows & board.v[x];
        }
        x += 1;
    }
    count_bits(rows)
}

/// Difference in height between the two neighbours of the well `w`; at an
/// edge of the board the one neighbour counts for both.
pub open spec fn well_gap(h: Seq<int>, w: int) -> int {
    let left = if w != 0 {
        h[w - 1]
    } else {
        h[w + 1]
    };
    let right = if w != 9 {
        h[w + 1]
    } else {
        h[w - 1]
    };
    if left >= right {
        left - right
    } else {
        right - left
    }
}

/// What the well `w` is worth, in points: the lines it would clear, its
/// position, and the difference in height between its neighbours.
pub open spec fn well_points(b: Board, h: Seq<int>, w: int, weights: Weights) -> int {
    if 0 <= w < 10 {
        let gap = well_gap(h, w);
        count_below(and_but(b, w, 10), 32) * weights.well_v + well_placement(w) + gap * gap
            * weights.well_parity + (if gap % 2 == 1 {
            weights.well_odd_par as int
        } else {
            0
        }) + (if gap == 0 {
            weights.well_flat_parity as int
        } else {
            0
        })
    } else {
        0
    }
}

/// What the stack is worth, in points: the T-spin places and their score,
/// the holes and their squared depths, the squared steps between
/// neighbouring columns and the worth of the well.
pub open spec fn stack_points(b: Board, well: int, w: Weights, limit: int) -> int {
    let h = spec_heights(b);
    let cols = slot_columns(b, 200);
    let holes = holes_upto(b, cols, limit, 10);
    cols.len() * w.tspin_bonus + slot_score(b, 200) * w.tspin_score + holes.0 * w.hole + holes.1
        * w.hole_depth + steps_from(h, well, 0, None) * w.h_local_deviation + well_points(
        b,
        h,
        well,
        w,
    )
}

/// What the move is worth, in points: its attack, its lines and the
/// difference of the two.
pub open spec fn move_points(meta: MoveStats, w: Weights) -> int {
    (meta.attacks - meta.ds) * w.eff + meta.attacks * w.attack + meta.ds * w.downstack
}

/// What the average height is worth, in parts of a point: with a well the
/// part is 1/81 and the average is taken over the nine other columns, else
/// the part is 1/100. The square of the average counts, and the square of
/// the distance of each column from it.
pub open spec fn height_parts(b: Board, well: int, w: Weights) -> int {
    let h = spec_heights(b);
    let sum = sum_upto(h, 10);
    let a = if well < 10 {
        sum - h[well]
    } else {
        sum
    };
    let d = if well < 10 {
        9int
    } else {
        10int
    };
    a * a * w.average_h + spread_upto(h, well, a, d, 10) * w.h_global_deviation
}

/// The score of a position, in units of `1 / SCORE_SCALE`.
///
/// The profile is that of the mode; the normal mode plays by the attack
/// profile below an average height of `DS_HEIGHT_THRESHOLD` rows and by
/// the downstack profile from there on. The score is the sum of what the
/// stack, the move and the average height are worth.
pub open spec fn spec_evaluate(s: StateView, meta: MoveStats, mode: Mode) -> int {
    let b = s.board;
    let h = spec_heights(b);
    let ds = plays_downstack(mode, sum_upto(h, 10));
    let w = if ds {
        spec_weights_ds()
    } else {
        spec_weights_atk()
    };
    let f = if ds {
        spec_factors_ds()
    } else {
        spec_factors_atk()
    };
    let penalty = if mode == Mode::Norm && ds {
        DS_MODE_PENALTY as int
    } else {
        0
    };
    let well = spec_well(h, f.well_threshold as int);
    let points = penalty + stack_points(b, well, w, f.hole_depth_relevancy_threshold as int)
        + move_points(meta, w);
    SCORE_SCALE * points + (if well < 10 { 100int } else { 81int }) * height_parts(b, well, w)
}

/// A feature times its weight.
fn weigh(v: i64, w: i64) -> (r: i64)
    requires
        -2000000 <= v <= 2000000,
        -150 <= w <= 150,
    ensures
        r == v * w,
        -300000000 <= r <= 300000000,
{
    assert(-300000000 <= v * w <= 300000000) by (nonlinear_arith)
        requires
            -2000000 <= v <= 2000000,
            -150 <= w <= 150,
    ;
    v * w
}

/// What a well in column `x` is worth by its position alone, in points.
fn placement(x: usize) -> (p: i64)
    requires
        x < 10,
    ensures
        p == well_placement(x as int),
        -70 <= p <= 70,
{
    let table: [i64; 10] = [-35, -70, 0, 70, 0, 0, 70, 0, -70, -35];
    table[x]
}

/// Whether the weights are within the bounds for which the score is
/// computed without overflow.
pub open spec fn bounded(w: Weights) -> bool {
    &&& -150 <= w.hole <= 150
    &&& -150 <= w.hole_depth <= 150
    &&& -150 <= w.h_local_deviation <= 150
    &&& -150 <= w.h_global_deviation <= 150
    &&& -150 <= w.well_v <= 150
    &&& -150 <= w.well_parity <= 150
    &&& -150 <= w.well_odd_par <= 150
    &&& -150 <= w.well_flat_parity <= 150
    &&& -150 <= w.tspin_bonus <= 150
    &&& -150 <= w.tspin_score <= 150
    &&& -150 <= w.average_h <= 150
    &&& -150 <= w.attack <= 150
    &&& -150 <= w.downstack <= 150
    &&& -150 <= w.eff <= 150
}

/// What the well is worth, in points.
fn score_well(b: &Board, h: &[u32; 10], well: usize, weights: &Weights) -> (out: i64)
    requires
        bounded(*weights),
        forall|x: int| 0 <= x < 10 ==> #[trigger] h[x] == b.spec_height(x),
        forall|x: int| 0 <= x < 10 ==> #[trigger] h[x] <= 32,
    ensures
        out == well_points(*b, spec_heights(*b), well as int, *weights),
        -700000000 <= out <= 700000000,
{
    assert(h@.map_values(|v: u32| v as int) =~= spec_heights(*b));
    if well < 10 {
        let left: u32 = if well != 0 {
            h[well - 1]
        } else {
            h[well + 1]
        };
        let right: u32 = if well != 9 {
            h[well + 1]
        } else {
            h[well - 1]
        };
        let gap: i64 = if left >= right {
            (left - right) as i64
        } else {
            (right - left) as i64
        };
        assert(gap == well_gap(spec_heights(*b), well as int));
        assert(0 <= gap * gap <= 1024) by (nonlinear_arith)
            requires
                0 <= gap <= 32,
        ;
        weigh(well_value(b, well) as i64, weights.well_v) + placement(well) + weigh(
            gap * gap,
            weights.well_parity,
        ) + (if gap % 2 == 1 {
            weights.well_odd_par
        } else {
            0
        }) + (if gap == 0 {
            weights.well_flat_parity
        } else {
            0
        })
    } else {
        0
    }
}

/// What the stack is worth, in points.
fn score_stack(b: &Board, h: &[u32; 10], well: usize, weights: &Weights, limit: u32) -> (out: i64)
    requires
        bounded(*weights),
        forall|x: int| 0 <= x < 10 ==> #[trigger] h[x] == b.spec_height(x),
        forall|x: int| 0 <= x < 10 ==> #[trigger] h[x] <= 32,
    ensures
        out == stack_points(*b, well as int, *weights, limit as int),
        -3000000000 <= out <= 3000000000,
{
    assert(h@.map_values(|v: u32| v as int) =~= spec_heights(*b));
    let tspins = Tspins::find(b);
    let (holes, depth) = count_holes(b, &tspins, limit);
    let places = weigh(tspins.count() as i64, weights.tspin_bonus) + weigh(
        tspins.score as i64,
        weights.tspin_score,
    );
    let gaps = weigh(holes as i64, weights.hole) + weigh(depth as i64, weights.hole_depth);
    let surface = weigh(steps(h, well), weights.h_local_deviation);
    places + gaps + surface + score_well(b, h, well, weights)
}

/// What the move is worth, in points.
fn score_move(meta: MoveStats, weights: &Weights) -> (out: i64)
    requires
        bounded(*weights),
    ensures
        out == move_points(meta, *weights),
        -1000000000 <= out <= 1000000000,
{
    let attacks: i64 = meta.attacks as i64;
    let lines: i64 = meta.ds as i64;
    weigh(attacks - lines, weights.eff) + weigh(attacks, weights.attack) + weigh(
        lines,
        weights.downstack,
    )
}

/// What the average height is worth, in parts of a point.
fn score_heights(b: &Board, h: &[u32; 10], sum: u32, well: usize, weights: &Weights) -> (out: i64)
    requires
        bounded(*weights),
        forall|x: int| 0 <= x < 10 ==> #[trigger] h[x] == b.spec_height(x),
        forall|x: int| 0 <= x < 10 ==> #[trigger] h[x] <= 32,
        sum == sum_upto(spec_heights(*b), 10),
        sum <= 320,
        well < 10 || well == NO_WELL,
    ensures
        out == height_parts(*b, well as int, *weights),
        -1000000000 <= out <= 1000000000,
{
    assert(h@.map_values(|v: u32| v as int) =~= spec_heights(*b));
    let a: i64 = if well < 10 {
        sum as i64 - h[well] as i64
    } else {
        sum as i64
    };
    let d: i64 = if well < 10 {
        9
    } else {
        10
    };
    proof {
        lemma_sum_bounds(spec_heights(*b), 10, well as int);
    }
    assert(0 <= a * a <= 102400) by (nonlinear_arith)
        requires
            0 <= a <= 320,
    ;
    weigh(a * a, weights.average_h) + weigh(spread(h, well, a, d), weights.h_global_deviation)
}

/// A sum of heights is at least each of them.
proof fn lemma_sum_bounds(h: Seq<int>, n: int, w: int)
    requires
        0 <= n <= h.len(),
        forall|x: int| 0 <= x < h.len() ==> 0 <= #[trigger] h[x],
    ensures
        0 <= sum_upto(h, n),
        0 <= w < n ==> h[w] <= sum_upto(h, n),
    decreases n,
{
    if n > 0 {
        lemma_sum_bounds(h, n - 1, w);
    }
}

/// The heuristic evaluation of the position that a move has led to: the
/// score of `state` after a move with the statistics `meta`, by the
/// weighting profile of `mode`.
pub fn evaluate(state: &State, meta: MoveStats, mode: Mode) -> (score: i64)
    ensures
        score == spec_evaluate(state@, meta, mode),
        -100000000000000 <= score <= 100000000000000,
{
    let b = &state.board;
    let h = b.heights();
    assert(h@.map_values(|v: u32| v as int) =~= spec_heights(*b));
    let sum: u32 = sum_heights(&h);
    let ds = match mode {
        Mode::Norm => sum >= 10 * DS_HEIGHT_THRESHOLD,
        Mode::DS => true,
        Mode::Attack => false,
    };
    let penalty: i64 = match mode {
        Mode::Norm => if ds {
            DS_MODE_PENALTY
        } else {
            0
        },
        _ => 0,
    };
    let weights = if ds {
        weights_ds()
    } else {
        weights_atk()
    };
    let factors = if ds {
        factors_ds()
    } else {
        factors_atk()
    };
    let well: usize = find_well(&h, factors.well_threshold);
    let points: i64 = penalty + score_stack(
        b,
        &h,
        well,
        &weights,
        factors.hole_depth_relevancy_threshold,
    ) + score_move(meta, &weights);
    let parts: i64 = score_heights(b, &h, sum, well, &weights);
    SCORE_SCALE * points + (if well < 10 { 100 } else { 81 }) * parts
}

} // verus!
