use vstd::prelude::*;

use crate::lemmas::{
    lemma_dist_bound, lemma_initial_totals, lemma_next_side_mod, lemma_row_sum_prefix, lemma_step,
    lemma_totals_nonneg, lemma_totals_update, lemma_with_pit,
};
use crate::model::{
    apply_move, initial_board, leads, move_bound, move_status, next_side, pick_up,
    reports, row_sum, seed_total, sow_measure, sow_run, sow_step, sowing_ok, sown, well_formed,
    with_pit, with_store, BoardView, SideView,
};
use crate::status::{MoveStatus, Outcome};

verus! {

/// One player's row of pits and store.
struct Player {
    name: String,
    side: Vec<u32>,
    points: u32,
}

impl View for Player {
    type V = SideView;

    closed spec fn view(&self) -> SideView {
        SideView { name: self.name@, pits: self.side@, store: self.points }
    }
}

/// A game board: one row of pits and one store per player, in play order,
/// and the index of the player whose turn it is.
pub struct Board {
    whos_up: usize,
    length: usize,
    players: Vec<Player>,
}

impl View for Board {
    type V = BoardView;

    closed spec fn view(&self) -> BoardView {
        BoardView {
            pits_per_row: self.length as nat,
            current: self.whos_up as int,
            sides: self.players@.map_values(|p: Player| p@),
        }
    }
}

/// The seeds in a row of pits.
fn row_total(side: &Vec<u32>) -> (r: u32)
    requires
        row_sum(side@) <= u32::MAX,
    ensures
        r == row_sum(side@),
{
    let mut acc: u32 = 0;
    let mut j: usize = 0;
    while j < side.len()
        invariant
            j <= side@.len(),
            row_sum(side@) <= u32::MAX,
            acc == row_sum(side@.subrange(0, j as int)),
        decreases side@.len() - j,
    {
        proof {
            assert(side@.subrange(0, j + 1).drop_last() =~= side@.subrange(0, j as int));
            lemma_row_sum_prefix(side@, j + 1);
        }
        acc = acc + side[j];
        j += 1;
    }
    assert(side@.subrange(0, j as int) =~= side@);
    acc
}

impl Board {
    /// The number of pits in each row of a board made by `new`.
    pub const LENGTH: usize = 6;

    /// Whether the board is in a state that play can reach.
    pub open spec fn wf(&self) -> bool {
        well_formed(self@)
    }

    /// A board with `Board::LENGTH` pits per row, each holding
    /// `initial_fill` seeds, one side per name in the order given, empty
    /// stores, and the first player to move.
    pub fn new(initial_fill: u32, player_names: &[&str]) -> (r: Board)
        requires
            player_names@.len() >= 1,
            initial_fill * 6 * player_names@.len() <= u32::MAX,
        ensures
            r.wf(),
            r@ == initial_board(
                initial_fill,
                6,
                player_names@.map_values(|s: &str| s@),
            ),
            seed_total(r@) == initial_fill * 6 * player_names@.len(),
    {
        Board::with_length(initial_fill, Board::LENGTH, player_names)
    }

    /// A board with `pits_per_row` pits per row, each holding `initial_fill`
    /// seeds, one side per name in the order given, empty stores, and the
    /// first player to move.
    pub fn with_length(initial_fill: u32, pits_per_row: usize, player_names: &[&str]) -> (r: Board)
        requires
            player_names@.len() >= 1,
            pits_per_row >= 1,
            initial_fill * pits_per_row * player_names@.len() <= u32::MAX,
        ensures
            r.wf(),
            r@ == initial_board(
                initial_fill,
                pits_per_row as nat,
                player_names@.map_values(|s: &str| s@),
            ),
            seed_total(r@) == initial_fill * pits_per_row * player_names@.len(),
    {
        let ghost names = player_names@.map_values(|s: &str| s@);
        let ghost goal = initial_board(initial_fill, pits_per_row as nat, names);
        let mut players: Vec<Player> = Vec::new();
        let mut j: usize = 0;
        while j < player_names.len()
            invariant
                j <= player_names@.len(),
                players@.len() == j,
                names == player_names@.map_values(|s: &str| s@),
                goal == initial_board(initial_fill, pits_per_row as nat, names),
                forall|q: int| 0 <= q < j ==> (#[trigger] players@[q])@ == goal.sides[q],
            decreases player_names@.len() - j,
        {
            let mut side: Vec<u32> = Vec::new();
            let mut i: usize = 0;
            while i < pits_per_row
                invariant
                    i <= pits_per_row,
                    side@ == Seq::new(i as nat, |k: int| initial_fill),
                decreases pits_per_row - i,
            {
                side.push(initial_fill);
                i += 1;
                assert(side@ =~= Seq::new(i as nat, |k: int| initial_fill));
            }
            let name = player_names[j].to_owned();
            players.push(Player { name, side, points: 0 });
            j += 1;
        }
        let r = Board { whos_up: 0, length: pits_per_row, players };
        assert(r@.sides =~= goal.sides);
        proof {
            lemma_initial_totals(initial_fill, pits_per_row as nat, names);
        }
        r
    }

    /// The name of the player whose turn it is.
    pub fn player(&self) -> (r: String)
        requires
            self.wf(),
        ensures
            r@ == self@.sides[self@.current].name,
    {
        assert(self.players@[self.whos_up as int]@ == self@.sides[self@.current]);
        self.players[self.whos_up].name.clone()
    }

    /// The standing of the game: `NotOver` while every row holds seeds;
    /// otherwise the player with the largest store wins, or the game is a
    /// tie when two or more stores share the largest count.
    pub fn state(&self) -> (r: Outcome)
        requires
            self.wf(),
        ensures
            reports(self@, r),
    {
        let ghost b = self@;
        let n = self.players.len();
        let mut over = n == 0;
        let mut p: usize = 0;
        while p < n
            invariant
                b == self@,
                well_formed(b),
                n == b.sides.len(),
                p <= n,
                over <==> (n == 0 || exists|q: int| 0 <= q < p && row_sum(#[trigger] b.sides[q].pits) == 0),
            decreases n - p,
        {
            proof {
                lemma_totals_nonneg(b.sides);
                lemma_totals_update(b.sides, p as int, b.sides[p as int]);
            }
            assert(self.players@[p as int]@ == b.sides[p as int]);
            if row_total(&self.players[p].side) == 0 {
                over = true;
            }
            p += 1;
        }
        if !over {
            return Outcome::NotOver;
        }
        let mut best: usize = 0;
        let mut unique = true;
        let mut q: usize = 1;
        while q < n
            invariant
                b == self@,
                n == b.sides.len(),
                n >= 1,
                0 <= best < q <= n,
                forall|j: int| 0 <= j < q ==> (#[trigger] b.sides[j]).store <= b.sides[best as int].store,
                unique ==> forall|j: int| 0 <= j < q && j != best ==> (#[trigger] b.sides[j]).store < b.sides[best as int].store,
                !unique ==> exists|j: int| 0 <= j < q && j != best && (#[trigger] b.sides[j]).store == b.sides[best as int].store,
            decreases n - q,
        {
            assert(self.players@[q as int]@ == b.sides[q as int]);
            assert(self.players@[best as int]@ == b.sides[best as int]);
            let v = self.players[q].points;
            if v > self.players[best].points {
                best = q;
                unique = true;
            } else if v == self.players[best].points {
                unique = false;
            }
            q += 1;
        }
        if unique {
            assert(leads(b, best as int));
            assert(self.players@[best as int]@ == b.sides[best as int]);
            Outcome::Winner(self.players[best].name.clone())
        } else {
            assert forall|w: int| !leads(b, w) by {
                if 0 <= w < n {
                    let j = choose|j: int| 0 <= j < q && j != best && (#[trigger] b.sides[j]).store == b.sides[best as int].store;
                    if w == best {
                        assert(b.sides[j].store == b.sides[w].store);
                    } else {
                        assert(b.sides[best as int].store >= b.sides[w].store);
                    }
                }
            }
            Outcome::Tie
        }
    }

    /// The number of players.
    pub fn player_count(&self) -> (r: usize)
        ensures
            r == self@.sides.len(),
    {
        self.players.len()
    }

    /// The number of pits in each row.
    pub fn pits_per_row(&self) -> (r: usize)
        ensures
            r == self@.pits_per_row,
    {
        self.length
    }

    /// The index of the player whose turn it is.
    pub fn current_index(&self) -> (r: usize)
        ensures
            r == self@.current,
    {
        self.whos_up
    }

    /// The name of player `p`.
    pub fn name(&self, p: usize) -> (r: String)
        requires
            p < self@.sides.len(),
        ensures
            r@ == self@.sides[p as int].name,
    {
        assert(self.players@[p as int]@ == self@.sides[p as int]);
        self.players[p].name.clone()
    }

    /// The seeds in pit `i` of player `p`.
    pub fn pit(&self, p: usize, i: usize) -> (r: u32)
        requires
            self.wf(),
            p < self@.sides.len(),
            i < self@.pits_per_row,
        ensures
            r == self@.sides[p as int].pits[i as int],
    {
        assert(self.players@[p as int]@ == self@.sides[p as int]);
        self.players[p].side[i]
    }

    /// The seeds in the store of player `p`.
    pub fn store(&self, p: usize) -> (r: u32)
        requires
            p < self@.sides.len(),
        ensures
            r == self@.sides[p as int].store,
    {
        assert(self.players@[p as int]@ == self@.sides[p as int]);
        self.players[p].points
    }

    fn set_pit(&mut self, p: usize, i: usize, v: u32)
        requires
            p < old(self)@.sides.len(),
            i < old(self)@.sides[p as int].pits.len(),
        ensures
            final(self)@ == with_pit(old(self)@, p as int, i as int, v),
    {
        self.players[p].side[i] = v;
        assert(self@.sides =~= with_pit(old(self)@, p as int, i as int, v).sides);
    }

    fn set_store(&mut self, p: usize, v: u32)
        requires
            p < old(self)@.sides.len(),
        ensures
            final(self)@ == with_store(old(self)@, p as int, v),
    {
        self.players[p].points = v;
        assert(self@.sides =~= with_store(old(self)@, p as int, v).sides);
    }

    /// Plays the current player's pit `index`. The pit's seeds are taken up
    /// and sown one per cell along the traversal: the rest of the mover's
    /// row, the mover's store, then each following player's row, round and
    /// round. When the last seed in hand lands on a pit that holds seeds,
    /// those seeds are taken up and sowing goes on. The move ends when the
    /// last seed lands in an empty pit (`Done`, the turn passes on) or in the
    /// mover's store (`GoAgain`). An index off the row gives `OutOfBounds`
    /// and an empty pit `EmptyCell`; the board is then left as it was.
    pub fn turn(&mut self, index: usize) -> (r: MoveStatus)
        requires
            old(self).wf(),
        ensures
            final(self).wf(),
            final(self)@ == apply_move(old(self)@, index as int),
            r == move_status(old(self)@, index as int),
            r == MoveStatus::OutOfBounds <==> index >= old(self)@.pits_per_row,
            r == MoveStatus::EmptyCell <==> index < old(self)@.pits_per_row
                && old(self)@.sides[old(self)@.current].pits[index as int] == 0,
            r == MoveStatus::OutOfBounds || r == MoveStatus::EmptyCell ==> final(self)@ == old(
                self,
            )@,
            r == MoveStatus::Done ==> final(self)@.current == (old(self)@.current + 1) % (old(
                self,
            )@.sides.len() as int),
            r == MoveStatus::GoAgain ==> final(self)@.current == old(self)@.current,
            seed_total(final(self)@) == seed_total(old(self)@),
            forall|q: int|
                0 <= q < old(self)@.sides.len() ==> (#[trigger] final(self)@.sides[q]).store >= old(
                    self,
                )@.sides[q].store,
    {
        let ghost b0 = self@;
        let mover = self.whos_up;
        let len = self.length;
        let n = self.players.len();
        if index >= len {
            return MoveStatus::OutOfBounds;
        }
        assert(self.players@[mover as int]@ == b0.sides[mover as int]);
        let mut hand = self.players[mover].side[index];
        if hand == 0 {
            return MoveStatus::EmptyCell;
        }
        proof {
            lemma_with_pit(b0, mover as int, index as int, 0);
            lemma_totals_nonneg(b0.sides);
        }
        self.set_pit(mover, index, 0);
        let ghost s0 = pick_up(b0, index as int);
        let ghost mut s = s0;
        let ghost mut fuel = move_bound(b0);
        proof {
            lemma_dist_bound(s0);
        }
        let mut player = mover;
        let mut cell = index + 1;
        let mut in_store = false;
        // The hand is never empty at the top of this loop: the invariant
        // proves what a run-time check would otherwise have to catch.
        loop
            invariant_except_break
                s.hand > 0,
                !in_store,
                fuel > sow_measure(s),
            invariant
                sowing_ok(s),
                self@ == s.board,
                player == s.player,
                cell == s.index,
                hand == s.hand,
                s.board.current == mover,
                s.board.pits_per_row == len,
                s.board.sides.len() == n,
                s.hand + seed_total(s.board) == seed_total(b0),
                forall|q: int|
                    0 <= q < n ==> (#[trigger] s.board.sides[q]).store >= b0.sides[q].store,
                sow_run(s, fuel) == sown(b0, index as int),
            ensures
                sowing_ok(s),
                s == sown(b0, index as int),
                self@ == s.board,
                s.board.current == mover,
                seed_total(s.board) == seed_total(b0),
                forall|q: int|
                    0 <= q < n ==> (#[trigger] s.board.sides[q]).store >= b0.sides[q].store,
                in_store <==> s.index == len,
            decreases sow_measure(s),
        {
            proof {
                lemma_step(s);
                lemma_totals_nonneg(s.board.sides);
            }
            let ghost next = sow_step(s);
            assert(sow_run(s, fuel) == sow_run(next, (fuel - 1) as nat));
            assert(self.players@[player as int]@ == s.board.sides[player as int]);
            if cell == len {
                proof {
                    lemma_totals_update(s.board.sides, player as int, s.board.sides[player as int]);
                }
                let v = self.players[player].points + 1;
                self.set_store(player, v);
                if hand < 2 {
                    in_store = true;
                }
                hand -= 1;
            } else {
                proof {
                    lemma_with_pit(s.board, player as int, cell as int, 0);
                }
                let c = self.players[player].side[cell];
                if hand >= 2 {
                    self.set_pit(player, cell, c + 1);
                    hand -= 1;
                } else if c >= 1 {
                    self.set_pit(player, cell, 0);
                    hand += c;
                } else {
                    self.set_pit(player, cell, 1);
                    hand = 0;
                }
            }
            if hand == 0 {
                proof {
                    s = next;
                    fuel = (fuel - 1) as nat;
                }
                break;
            }
            if cell < len - 1 {
                cell += 1;
            } else if cell == len - 1 && player == mover {
                cell = len;
            } else {
                player = if player + 1 < n {
                    player + 1
                } else {
                    0
                };
                cell = 0;
            }
            proof {
                s = next;
                fuel = (fuel - 1) as nat;
            }
        }
        if in_store {
            MoveStatus::GoAgain
        } else {
            self.whos_up = if mover + 1 < n {
                mover + 1
            } else {
                0
            };
            assert(self@ == BoardView { current: next_side(mover as int, n as int), ..s.board });
            proof {
                lemma_next_side_mod(mover as int, n as int);
            }
            MoveStatus::Done
        }
    }
}

} // verus!
