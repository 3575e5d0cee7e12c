//! Which placements the keystrokes can reach: the search space of the
//! enumerator, stated without reference to the search itself.
use vstd::prelude::*;

use super::movegen::{blocked, lemma_first_kick, lemma_pushed, rests};
use super::{Board, Key, Move, Piece, Rotation, LIST_CAPACITY};

verus! {

/// Whether two moves place the piece at the same anchor in the same facing.
pub open spec fn same_place(a: Move, b: Move) -> bool {
    a.x == b.x && a.y == b.y && a.r == b.r
}

/// The move that keystroke `k` leads to from `m`, if the keystroke has an
/// effect. `Hold` is no step of the search.
pub open spec fn step(m: Move, k: Key, board: Board, piece: Piece) -> Option<Move> {
    match k {
        Key::Drop => m.spec_drop(board, piece),
        Key::R => m.spec_shift(1, board, piece),
        Key::L => m.spec_shift(-1, board, piece),
        Key::CW => m.spec_cw(board, piece),
        Key::CCW => m.spec_ccw(board, piece),
        Key::Hold => None,
    }
}

/// The move that the keystrokes `ks` lead to from `start`, if each of them
/// has an effect and the key list has room for all of them.
pub open spec fn replay(start: Move, ks: Seq<Key>, board: Board, piece: Piece) -> Option<Move>
    decreases ks.len(),
{
    if ks.len() == 0 {
        Some(start)
    } else {
        match replay(start, ks.drop_last(), board, piece) {
            Some(m) => if m.spec_list_len() < LIST_CAPACITY {
                step(m, ks.last(), board, piece)
            } else {
                None
            },
            None => None,
        }
    }
}

/// Where a piece enters the board: above the middle columns, facing north,
/// with `Hold` as its first keystroke when it comes from the hold.
pub open spec fn spawn(held: bool) -> Move {
    let m = Move { x: 4, y: 19, r: Rotation::N, list: 0 };
    if held {
        m.pushed(Key::Hold)
    } else {
        m
    }
}

/// The keystrokes of `m` behind those of `start`.
pub open spec fn tail_keys(start: Move, m: Move) -> Seq<Key> {
    m.keys().subrange(start.spec_list_len() as int, m.spec_list_len() as int)
}

/// Whether `m` is a placement that the search from `start` may hold: its
/// piece does not collide and its own keystrokes lead from `start` to it.
pub open spec fn reached(start: Move, m: Move, board: Board, piece: Piece) -> bool {
    &&& start.wf()
    &&& !blocked(board, piece, start.x as int, start.y as int, start.r)
    &&& m.wf()
    &&& start.spec_list_len() <= m.spec_list_len()
    &&& replay(start, tail_keys(start, m), board, piece) == Some(m)
    &&& !blocked(board, piece, m.x as int, m.y as int, m.r)
}

/// Whether the list `all` holds the place of `m` with at most `bound`
/// keystrokes.
pub open spec fn found(all: Seq<Move>, m: Move, bound: int) -> bool {
    exists|j: int| 0 <= j < all.len() && same_place(#[trigger] all[j], m) && all[j].spec_list_len() <= bound
}

/// A piece that does not collide lands where its drop distance says: it
/// does not collide there and it rests there.
pub proof fn lemma_drop_lands(b: Board, piece: Piece, x: int, y: int, r: Rotation)
    requires
        0 <= x < 10,
        0 <= y < 32,
        !b.collides(piece, x, y, r),
    ensures
        0 <= b.drop_distance(piece, x, y, r) <= y,
        !blocked(b, piece, x, y - b.drop_distance(piece, x, y, r), r),
        rests(b, piece, x, y - b.drop_distance(piece, x, y, r), r),
    decreases y,
{
    if !(y <= 0 || b.collides(piece, x, y - 1, r)) {
        lemma_drop_lands(b, piece, x, y - 1, r);
    }
}

/// A move with the list of a reached move, at a place where the piece does
/// not collide, is reached as well once the keystroke that leads to it is
/// appended.
proof fn lemma_extend(start: Move, m: Move, at: Move, k: Key, board: Board, piece: Piece)
    requires
        reached(start, m, board, piece),
        m.spec_list_len() < LIST_CAPACITY,
        at.list == m.list,
        !blocked(board, piece, at.x as int, at.y as int, at.r),
        step(m, k, board, piece) == Some(at.pushed(k)),
    ensures
        reached(start, at.pushed(k), board, piece),
        at.pushed(k).spec_list_len() == m.spec_list_len() + 1,
{
    let q = at.pushed(k);
    lemma_pushed(at, k);
    assert(at.keys() =~= m.keys());
    let ks = tail_keys(start, m);
    assert(tail_keys(start, q) =~= ks.push(k));
    assert(ks.push(k).drop_last() =~= ks);
    assert(ks.push(k).last() == k);
}

/// One step from a reached move with room in its list leads to a reached
/// move with one keystroke more.
pub proof fn lemma_step(start: Move, m: Move, k: Key, board: Board, piece: Piece)
    requires
        reached(start, m, board, piece),
        m.spec_list_len() < LIST_CAPACITY,
        step(m, k, board, piece) is Some,
    ensures
        reached(start, step(m, k, board, piece).unwrap(), board, piece),
        step(m, k, board, piece).unwrap().spec_list_len() == m.spec_list_len() + 1,
{
    match k {
        Key::Drop => {
            lemma_drop_lands(board, piece, m.x as int, m.y as int, m.r);
            let d = board.drop_distance(piece, m.x as int, m.y as int, m.r);
            lemma_extend(start, m, Move { y: (m.y - d) as i8, ..m }, k, board, piece);
        },
        Key::R => {
            lemma_extend(start, m, Move { x: (m.x + 1) as i8, ..m }, k, board, piece);
        },
        Key::L => {
            lemma_extend(start, m, Move { x: (m.x - 1) as i8, ..m }, k, board, piece);
        },
        Key::CW => {
            lemma_first_kick(m, board, piece, m.r.spec_cw(), 0);
            lemma_extend(
                start,
                m,
                m.spec_rotate(board, piece, m.r.spec_cw()).unwrap(),
                k,
                board,
                piece,
            );
        },
        Key::CCW => {
            lemma_first_kick(m, board, piece, m.r.spec_ccw(), 0);
            lemma_extend(
                start,
                m,
                m.spec_rotate(board, piece, m.r.spec_ccw()).unwrap(),
                k,
                board,
                piece,
            );
        },
        Key::Hold => {},
    }
}

/// The kick that turns a piece depends on where the piece is, not on the
/// keystrokes that brought it there.
proof fn lemma_first_kick_place(a: Move, b: Move, board: Board, piece: Piece, to: Rotation, i: int)
    requires
        same_place(a, b),
        0 <= i,
    ensures
        a.first_kick(board, piece, to, i) is Some <==> b.first_kick(board, piece, to, i) is Some,
        a.first_kick(board, piece, to, i) is Some ==> same_place(
            a.first_kick(board, piece, to, i).unwrap(),
            b.first_kick(board, piece, to, i).unwrap(),
        ),
    decreases 5 - i,
{
    if i < 5 {
        lemma_first_kick_place(a, b, board, piece, to, i + 1);
    }
}

/// A step depends on where the piece is, not on the keystrokes that brought
/// it there.
pub proof fn lemma_step_place(a: Move, b: Move, k: Key, board: Board, piece: Piece)
    requires
        same_place(a, b),
    ensures
        step(a, k, board, piece) is Some <==> step(b, k, board, piece) is Some,
        step(a, k, board, piece) is Some ==> same_place(
            step(a, k, board, piece).unwrap(),
            step(b, k, board, piece).unwrap(),
        ),
{
    match k {
        Key::CW => {
            lemma_first_kick_place(a, b, board, piece, a.r.spec_cw(), 0);
        },
        Key::CCW => {
            lemma_first_kick_place(a, b, board, piece, a.r.spec_ccw(), 0);
        },
        _ => {},
    }
}

/// Whatever a sequence of keystrokes leads to from a reached start is
/// itself reached, with one keystroke in its list for each keystroke made.
pub proof fn lemma_replay_reached(start: Move, ks: Seq<Key>, board: Board, piece: Piece)
    requires
        reached(start, start, board, piece),
        replay(start, ks, board, piece) is Some,
    ensures
        reached(start, replay(start, ks, board, piece).unwrap(), board, piece),
        replay(start, ks, board, piece).unwrap().spec_list_len() == start.spec_list_len() + ks.len(),
    decreases ks.len(),
{
    if ks.len() > 0 {
        lemma_replay_reached(start, ks.drop_last(), board, piece);
        let m = replay(start, ks.drop_last(), board, piece).unwrap();
        lemma_step(start, m, ks.last(), board, piece);
    }
}

/// The keystrokes that lead somewhere are appended to the key list one by
/// one, and none of them is `Hold`.
#[verifier::rlimit(40)]
pub proof fn lemma_replay_keys(start: Move, ks: Seq<Key>, board: Board, piece: Piece)
    requires
        reached(start, start, board, piece),
        replay(start, ks, board, piece) is Some,
    ensures
        replay(start, ks, board, piece).unwrap().keys() == start.keys() + ks,
        forall|i: int| 0 <= i < ks.len() ==> ks[i] != Key::Hold,
    decreases ks.len(),
{
    if ks.len() > 0 {
        let head = ks.drop_last();
        lemma_replay_keys(start, head, board, piece);
        lemma_replay_reached(start, head, board, piece);
        let before = replay(start, head, board, piece).unwrap();
        let m = replay(start, ks, board, piece).unwrap();
        assert(before.wf()) by {
            assert(reached(start, before, board, piece));
        }
        assert(m == step(before, ks.last(), board, piece).unwrap());
        lemma_step_keys(before, ks.last(), board, piece);
        assert(ks =~= head.push(ks.last()));
        assert(m.keys() =~= start.keys() + ks);
        assert forall|i: int| 0 <= i < ks.len() implies ks[i] != Key::Hold by {
            if i < ks.len() - 1 {
                assert(head[i] == ks[i]);
            }
        }
    } else {
        assert(start.keys() + ks =~= start.keys());
    }
}

/// A step appends its keystroke to the key list.
pub proof fn lemma_step_keys(m: Move, k: Key, board: Board, piece: Piece)
    requires
        m.wf(),
        m.spec_list_len() < LIST_CAPACITY,
        step(m, k, board, piece) is Some,
    ensures
        step(m, k, board, piece).unwrap().keys() == m.keys().push(k),
        k != Key::Hold,
{
    match k {
        Key::Drop => {
            let d = board.drop_distance(piece, m.x as int, m.y as int, m.r);
            let at = Move { y: (m.y - d) as i8, ..m };
            lemma_pushed(at, k);
            assert(at.keys() =~= m.keys());
        },
        Key::R => {
            let at = Move { x: (m.x + 1) as i8, ..m };
            lemma_pushed(at, k);
            assert(at.keys() =~= m.keys());
        },
        Key::L => {
            let at = Move { x: (m.x - 1) as i8, ..m };
            lemma_pushed(at, k);
            assert(at.keys() =~= m.keys());
        },
        Key::CW => {
            lemma_first_kick(m, board, piece, m.r.spec_cw(), 0);
            let at = m.spec_rotate(board, piece, m.r.spec_cw()).unwrap();
            lemma_pushed(at, k);
            assert(at.keys() =~= m.keys());
        },
        Key::CCW => {
            lemma_first_kick(m, board, piece, m.r.spec_ccw(), 0);
            let at = m.spec_rotate(board, piece, m.r.spec_ccw()).unwrap();
            lemma_pushed(at, k);
            assert(at.keys() =~= m.keys());
        },
        Key::Hold => {},
    }
}

/// A move that was reached from the spawn begins with `Hold` exactly when
/// the piece came from the hold.
pub proof fn lemma_reached_held(m: Move, board: Board, piece: Piece, held: bool)
    requires
        reached(spawn(held), m, board, piece),
    ensures
        m.spec_held() == held,
{
    let start = spawn(held);
    let bare = Move { x: 4, y: 19, r: Rotation::N, list: 0 };
    super::bits::lemma_empty_list();
    assert(bare.wf());
    if held {
        lemma_pushed(bare, Key::Hold);
    }
    assert(start.wf());
    let ks = tail_keys(start, m);
    assert(tail_keys(start, start) =~= Seq::<Key>::empty());
    lemma_replay_keys(start, ks, board, piece);
    assert(m.keys() == start.keys() + ks);
    if held {
        assert(start.keys()[0] == Key::Hold);
        assert(m.keys()[0] == Key::Hold);
        assert(super::bits::key_field(m.list, 0) == 6);
    } else {
        assert(start.keys().len() == 0);
        if m.keys().len() > 0 {
            assert(m.keys()[0] == ks[0]);
            assert(ks[0] != Key::Hold);
            assert(1 <= super::bits::key_field(m.list, 0) <= 6);
        }
    }
}

/// What the search maintains of the list `all` of the moves it has found:
/// the list begins with `start`, every move in it is reached, no place
/// occurs twice and the key lists never get shorter along the list.
pub open spec fn frontier(all: Seq<Move>, start: Move, board: Board, piece: Piece) -> bool {
    &&& all.len() > 0 ==> all[0] == start
    &&& forall|i: int| 0 <= i < all.len() ==> reached(start, #[trigger] all[i], board, piece)
    &&& forall|i: int, j: int|
        0 <= i < j < all.len() ==> !same_place(#[trigger] all[i], #[trigger] all[j])
    &&& forall|i: int, j: int|
        0 <= i <= j < all.len() ==> (#[trigger] all[i]).spec_list_len() <= (
        #[trigger] all[j]).spec_list_len()
}

/// Whether every step from one of the first `head` moves of `all` leads to
/// a place that `all` holds, with at most one keystroke more.
#[verifier::opaque]
pub open spec fn closed_upto(all: Seq<Move>, head: int, board: Board, piece: Piece) -> bool {
    forall|i: int, k: Key|
        0 <= i < head && i < all.len() && all[i].spec_list_len() < LIST_CAPACITY && (#[trigger] step(
            all[i],
            k,
            board,
            piece,
        )) is Some ==> found(
            all,
            step(all[i], k, board, piece).unwrap(),
            all[i].spec_list_len() as int + 1,
        )
}

/// A search that has taken every step from every move it found has found
/// every place that keystrokes lead to, by a key list that is as short as
/// any.
pub proof fn lemma_complete(all: Seq<Move>, start: Move, ks: Seq<Key>, board: Board, piece: Piece)
    requires
        all.len() > 0,
        frontier(all, start, board, piece),
        closed_upto(all, all.len() as int, board, piece),
        replay(start, ks, board, piece) is Some,
    ensures
        found(
            all,
            replay(start, ks, board, piece).unwrap(),
            replay(start, ks, board, piece).unwrap().spec_list_len() as int,
        ),
    decreases ks.len(),
{
    reveal(closed_upto);
    let m = replay(start, ks, board, piece).unwrap();
    if ks.len() == 0 {
        assert(same_place(all[0], m));
    } else {
        let before = replay(start, ks.drop_last(), board, piece).unwrap();
        lemma_complete(all, start, ks.drop_last(), board, piece);
        lemma_replay_reached(start, ks.drop_last(), board, piece);
        let i = choose|i: int|
            0 <= i < all.len() && same_place(#[trigger] all[i], before) && all[i].spec_list_len()
                <= before.spec_list_len();
        lemma_step_place(all[i], before, ks.last(), board, piece);
        lemma_step(start, before, ks.last(), board, piece);
        let q = step(all[i], ks.last(), board, piece).unwrap();
        assert(found(all, q, all[i].spec_list_len() as int + 1));
        let j = choose|j: int|
            0 <= j < all.len() && same_place(#[trigger] all[j], q) && all[j].spec_list_len()
                <= all[i].spec_list_len() + 1;
        assert(same_place(all[j], m));
    }
}

} // verus!
