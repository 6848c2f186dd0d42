use vstd::prelude::*;

use crate::status::{MoveStatus, Outcome};

verus! {

/// One player's part of the board, as plain values.
pub ghost struct SideView {
    pub name: Seq<char>,
    pub pits: Seq<u32>,
    pub store: u32,
}

/// The whole board, as plain values.
pub ghost struct BoardView {
    pub pits_per_row: nat,
    pub current: int,
    pub sides: Seq<SideView>,
}

/// A move in progress: the board, the cell under the cursor and the seeds in
/// hand. The cell is pit `index` of side `player`, or the mover's store when
/// `index == pits_per_row`.
pub ghost struct Sowing {
    pub board: BoardView,
    pub player: int,
    pub index: int,
    pub hand: int,
}

/// Seeds in a row of pits.
pub open spec fn row_sum(s: Seq<u32>) -> int
    decreases s.len(),
{
    if s.len() == 0 {
        0
    } else {
        row_sum(s.drop_last()) + s.last()
    }
}

/// Seeds in the pits of every side.
pub open spec fn pit_total(sides: Seq<SideView>) -> int
    decreases sides.len(),
{
    if sides.len() == 0 {
        0
    } else {
        pit_total(sides.drop_last()) + row_sum(sides.last().pits)
    }
}

/// Seeds in the stores of every side.
pub open spec fn store_total(sides: Seq<SideView>) -> int
    decreases sides.len(),
{
    if sides.len() == 0 {
        0
    } else {
        store_total(sides.drop_last()) + sides.last().store
    }
}

/// Every seed on the board, in pits and in stores.
pub open spec fn seed_total(b: BoardView) -> int {
    pit_total(b.sides) + store_total(b.sides)
}

/// The layout of a board: at least one side, a valid mover, and rows of one
/// positive length.
pub open spec fn has_shape(b: BoardView) -> bool {
    &&& b.sides.len() >= 1
    &&& 0 <= b.current < b.sides.len()
    &&& b.pits_per_row >= 1
    &&& forall|p: int|
        0 <= p < b.sides.len() ==> (#[trigger] b.sides[p]).pits.len() == b.pits_per_row
}

/// A board in a state that play can reach: its layout holds and every count
/// fits in a `u32`.
pub open spec fn well_formed(b: BoardView) -> bool {
    &&& has_shape(b)
    &&& seed_total(b) <= u32::MAX
}

/// The board as it was laid out at the start of a game.
pub open spec fn initial_board(fill: u32, pits_per_row: nat, names: Seq<Seq<char>>) -> BoardView {
    BoardView {
        pits_per_row,
        current: 0,
        sides: names.map_values(
            |name: Seq<char>| SideView { name, pits: Seq::new(pits_per_row, |i: int| fill), store: 0 },
        ),
    }
}

/// The side that follows side `p` among `n`.
pub open spec fn next_side(p: int, n: int) -> int {
    if p + 1 < n {
        p + 1
    } else {
        0
    }
}

/// The board with pit `i` of side `p` set to `v`.
pub open spec fn with_pit(b: BoardView, p: int, i: int, v: u32) -> BoardView {
    BoardView {
        sides: b.sides.update(p, SideView { pits: b.sides[p].pits.update(i, v), ..b.sides[p] }),
        ..b
    }
}

/// The board with the store of side `p` set to `v`.
pub open spec fn with_store(b: BoardView, p: int, v: u32) -> BoardView {
    BoardView { sides: b.sides.update(p, SideView { store: v, ..b.sides[p] }), ..b }
}

/// The cursor moved to the next cell: along the row, from the mover's last
/// pit into the mover's store, and from any other last pit or from the store
/// to the first pit of the next side. Other sides' stores are never visited.
pub open spec fn advance(s: Sowing) -> Sowing {
    let l = s.board.pits_per_row as int;
    if s.index + 1 < l {
        Sowing { index: s.index + 1, ..s }
    } else if s.index + 1 == l && s.player == s.board.current {
        Sowing { index: l, ..s }
    } else {
        Sowing { player: next_side(s.player, s.board.sides.len() as int), index: 0, ..s }
    }
}

/// One step of sowing at the cell under the cursor. With two or more seeds in
/// hand one is dropped and the cursor moves on. With one seed: into a pit
/// that holds seeds, the pit's seeds join the hand and the cursor moves on;
/// into an empty pit or the mover's store, the seed is dropped and the hand is
/// empty.
pub open spec fn sow_step(s: Sowing) -> Sowing {
    let b = s.board;
    let l = b.pits_per_row as int;
    if s.index == l {
        let b2 = with_store(b, s.player, (b.sides[s.player].store + 1) as u32);
        if s.hand >= 2 {
            advance(Sowing { board: b2, hand: s.hand - 1, ..s })
        } else {
            Sowing { board: b2, hand: 0, ..s }
        }
    } else {
        let c = b.sides[s.player].pits[s.index];
        if s.hand >= 2 {
            advance(
                Sowing { board: with_pit(b, s.player, s.index, (c + 1) as u32), hand: s.hand - 1, ..s },
            )
        } else if c >= 1 {
            advance(Sowing { board: with_pit(b, s.player, s.index, 0), hand: s.hand + c, ..s })
        } else {
            Sowing { board: with_pit(b, s.player, s.index, 1), hand: 0, ..s }
        }
    }
}

/// At most `fuel` steps of sowing, stopping once the hand is empty.
pub open spec fn sow_run(s: Sowing, fuel: nat) -> Sowing
    decreases fuel,
{
    if fuel == 0 || s.hand <= 0 {
        s
    } else {
        sow_run(sow_step(s), (fuel - 1) as nat)
    }
}

/// The start of a move: the mover's pit `i` emptied into the hand, the cursor
/// on the next cell.
pub open spec fn pick_up(b: BoardView, i: int) -> Sowing {
    Sowing {
        board: with_pit(b, b.current, i, 0),
        player: b.current,
        index: i + 1,
        hand: b.sides[b.current].pits[i] as int,
    }
}

/// The number of pits on the board: one lap of the traversal, less the
/// mover's store.
pub open spec fn lap(b: BoardView) -> int {
    (b.sides.len() * b.pits_per_row) as int
}

/// A move in progress whose cursor is on a cell of the traversal and whose
/// counts, hand included, fit in a `u32`.
pub open spec fn sowing_ok(s: Sowing) -> bool {
    let l = s.board.pits_per_row as int;
    &&& has_shape(s.board)
    &&& 0 <= s.player < s.board.sides.len()
    &&& 0 <= s.index <= l
    &&& s.index == l ==> s.player == s.board.current
    &&& s.hand >= 0
    &&& s.hand + seed_total(s.board) <= u32::MAX
}

/// Steps from the cursor to the mover's store along the traversal.
pub open spec fn dist_to_store(s: Sowing) -> int {
    let n = s.board.sides.len() as int;
    let l = s.board.pits_per_row as int;
    let cur = s.board.current;
    if s.index == l {
        0
    } else if s.player == cur {
        l - s.index
    } else {
        let k = if s.player > cur {
            s.player - cur
        } else {
            s.player - cur + n
        };
        (n - k) * l + l - s.index
    }
}

/// A measure that every step of sowing that leaves seeds in hand lowers:
/// seeds outside the stores count one lap each, and the distance to the
/// mover's store is added.
pub open spec fn sow_measure(s: Sowing) -> nat {
    ((s.hand + pit_total(s.board.sides)) * (lap(s.board) + 1) + dist_to_store(s)) as nat
}

/// A number of sowing steps within which every move from `b` ends.
pub open spec fn move_bound(b: BoardView) -> nat {
    (pit_total(b.sides) * (lap(b) + 1) + lap(b) + 1) as nat
}

/// Where sowing from the mover's pit `i` comes to rest.
pub open spec fn sown(b: BoardView, i: int) -> Sowing {
    sow_run(pick_up(b, i), move_bound(b))
}

/// Whether pit `i` of the mover can be played.
pub open spec fn in_bounds(b: BoardView, i: int) -> bool {
    0 <= i < b.pits_per_row
}

/// What a request to play the mover's pit `i` reports.
pub open spec fn move_status(b: BoardView, i: int) -> MoveStatus {
    if !in_bounds(b, i) {
        MoveStatus::OutOfBounds
    } else if b.sides[b.current].pits[i] == 0 {
        MoveStatus::EmptyCell
    } else if sown(b, i).index == b.pits_per_row {
        MoveStatus::GoAgain
    } else {
        MoveStatus::Done
    }
}

/// The board after a request to play the mover's pit `i`: unchanged when the
/// request is rejected; otherwise sown, with the turn passed on unless the
/// last seed fell into the mover's store.
pub open spec fn apply_move(b: BoardView, i: int) -> BoardView {
    if !in_bounds(b, i) || b.sides[b.current].pits[i] == 0 {
        b
    } else if sown(b, i).index == b.pits_per_row {
        sown(b, i).board
    } else {
        BoardView { current: next_side(b.current, b.sides.len() as int), ..sown(b, i).board }
    }
}

/// The board after a sequence of move requests.
pub open spec fn play(b: BoardView, moves: Seq<usize>) -> BoardView
    decreases moves.len(),
{
    if moves.len() == 0 {
        b
    } else {
        apply_move(play(b, moves.drop_last()), moves.last() as int)
    }
}

/// The game is over when there is no side, or some side's pits are all
/// empty.
pub open spec fn game_over(b: BoardView) -> bool {
    b.sides.len() == 0 || exists|p: int|
        0 <= p < b.sides.len() && row_sum(#[trigger] b.sides[p].pits) == 0
}

/// Side `w` holds strictly more in its store than every other side.
pub open spec fn leads(b: BoardView, w: int) -> bool {
    &&& 0 <= w < b.sides.len()
    &&& forall|q: int|
        0 <= q < b.sides.len() && q != w ==> (#[trigger] b.sides[q]).store < b.sides[w].store
}

/// Whether `r` reports the standing of board `b`: `NotOver` while every
/// side's pits hold seeds; once over, `Winner` with the name of the side
/// whose store is the unique maximum, or `Tie` when there is none.
pub open spec fn reports(b: BoardView, r: Outcome) -> bool {
    match r {
        Outcome::NotOver => !game_over(b),
        Outcome::Tie => game_over(b) && !exists|w: int| leads(b, w),
        Outcome::Winner(name) => game_over(b) && exists|w: int|
            leads(b, w) && name@ == b.sides[w].name,
    }
}

} // verus!
