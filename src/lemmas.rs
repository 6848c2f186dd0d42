use vstd::prelude::*;

use crate::model::{
    advance, dist_to_store, initial_board, has_shape, lap, next_side, pit_total, row_sum, seed_total, sow_measure,
    sow_run, sow_step, sowing_ok, store_total, with_pit, with_store, BoardView, SideView, Sowing,
};

verus! {

pub(crate) proof fn lemma_row_sum_nonneg(s: Seq<u32>)
    ensures
        row_sum(s) >= 0,
    decreases s.len(),
{
    if s.len() > 0 {
        lemma_row_sum_nonneg(s.drop_last());
    }
}

pub(crate) proof fn lemma_row_sum_update(s: Seq<u32>, i: int, v: u32)
    requires
        0 <= i < s.len(),
    ensures
        row_sum(s.update(i, v)) == row_sum(s) - s[i] + v,
        s[i] <= row_sum(s),
    decreases s.len(),
{
    lemma_row_sum_nonneg(s.drop_last());
    let t = s.update(i, v);
    if i == s.len() - 1 {
        assert(t.drop_last() =~= s.drop_last());
    } else {
        lemma_row_sum_update(s.drop_last(), i, v);
        assert(t.drop_last() =~= s.drop_last().update(i, v));
    }
}

pub(crate) proof fn lemma_totals_nonneg(sides: Seq<SideView>)
    ensures
        pit_total(sides) >= 0,
        store_total(sides) >= 0,
    decreases sides.len(),
{
    if sides.len() > 0 {
        lemma_totals_nonneg(sides.drop_last());
        lemma_row_sum_nonneg(sides.last().pits);
    }
}

pub(crate) proof fn lemma_totals_update(sides: Seq<SideView>, p: int, side: SideView)
    requires
        0 <= p < sides.len(),
    ensures
        pit_total(sides.update(p, side)) == pit_total(sides) - row_sum(sides[p].pits) + row_sum(
            side.pits,
        ),
        store_total(sides.update(p, side)) == store_total(sides) - sides[p].store + side.store,
        row_sum(sides[p].pits) <= pit_total(sides),
        sides[p].store <= store_total(sides),
    decreases sides.len(),
{
    lemma_totals_nonneg(sides.drop_last());
    lemma_row_sum_nonneg(sides.last().pits);
    let t = sides.update(p, side);
    if p == sides.len() - 1 {
        assert(t.drop_last() =~= sides.drop_last());
    } else {
        lemma_totals_update(sides.drop_last(), p, side);
        assert(t.drop_last() =~= sides.drop_last().update(p, side));
    }
}

/// Setting one pit changes the totals by the difference alone.
pub(crate) proof fn lemma_with_pit(b: BoardView, p: int, i: int, v: u32)
    requires
        has_shape(b),
        0 <= p < b.sides.len(),
        0 <= i < b.pits_per_row,
    ensures
        has_shape(with_pit(b, p, i, v)),
        pit_total(with_pit(b, p, i, v).sides) == pit_total(b.sides) - b.sides[p].pits[i] + v,
        store_total(with_pit(b, p, i, v).sides) == store_total(b.sides),
        b.sides[p].pits[i] <= pit_total(b.sides),
{
    let side = SideView { pits: b.sides[p].pits.update(i, v), ..b.sides[p] };
    lemma_row_sum_update(b.sides[p].pits, i, v);
    lemma_totals_update(b.sides, p, side);
    let b2 = with_pit(b, p, i, v);
    assert forall|q: int| 0 <= q < b2.sides.len() implies (#[trigger] b2.sides[q]).pits.len()
        == b2.pits_per_row by {
        if q != p {
            assert(b2.sides[q] == b.sides[q]);
        }
    }
}

/// Setting one store changes the totals by the difference alone.
pub(crate) proof fn lemma_with_store(b: BoardView, p: int, v: u32)
    requires
        has_shape(b),
        0 <= p < b.sides.len(),
    ensures
        has_shape(with_store(b, p, v)),
        pit_total(with_store(b, p, v).sides) == pit_total(b.sides),
        store_total(with_store(b, p, v).sides) == store_total(b.sides) - b.sides[p].store + v,
{
    let side = SideView { store: v, ..b.sides[p] };
    lemma_totals_update(b.sides, p, side);
    let b2 = with_store(b, p, v);
    assert forall|q: int| 0 <= q < b2.sides.len() implies (#[trigger] b2.sides[q]).pits.len()
        == b2.pits_per_row by {
        if q != p {
            assert(b2.sides[q] == b.sides[q]);
        }
    }
}

/// Moving the cursor off a pit brings it one step nearer the mover's store.
pub(crate) proof fn lemma_advance_from_pit(s: Sowing)
    requires
        sowing_ok(s),
        s.index < s.board.pits_per_row,
    ensures
        dist_to_store(advance(s)) == dist_to_store(s) - 1,
        sowing_ok(advance(s)),
{
    let n = s.board.sides.len() as int;
    let l = s.board.pits_per_row as int;
    let cur = s.board.current;
    if s.index + 1 < l {
    } else if s.player == cur {
    } else {
        let k = if s.player > cur {
            s.player - cur
        } else {
            s.player - cur + n
        };
        let q = next_side(s.player, n);
        if q != cur {
            assert((n - k) * l == (n - (k + 1)) * l + l) by (nonlinear_arith);
        } else {
            assert(k == n - 1);
            assert((n - k) * l == l) by (nonlinear_arith)
                requires
                    k == n - 1,
            ;
        }
    }
}

/// Moving the cursor off the mover's store puts it a whole lap away from it.
pub(crate) proof fn lemma_advance_from_store(s: Sowing)
    requires
        sowing_ok(s),
        s.index == s.board.pits_per_row,
    ensures
        dist_to_store(advance(s)) == lap(s.board),
        sowing_ok(advance(s)),
{
    let n = s.board.sides.len() as int;
    let l = s.board.pits_per_row as int;
    if n == 1 {
        assert(n * l == l) by (nonlinear_arith)
            requires
                n == 1,
        ;
    } else {
        assert((n - 1) * l + l == n * l) by (nonlinear_arith);
    }
}

/// The cursor lies at most a lap away from the mover's store.
pub(crate) proof fn lemma_dist_bound(s: Sowing)
    requires
        sowing_ok(s),
    ensures
        0 <= dist_to_store(s) <= lap(s.board),
{
    let n = s.board.sides.len() as int;
    let l = s.board.pits_per_row as int;
    let cur = s.board.current;
    if s.index == l {
        assert(0 <= n * l) by (nonlinear_arith)
            requires
                n >= 1,
                l >= 1,
        ;
    } else if s.player == cur {
        assert(l <= n * l) by (nonlinear_arith)
            requires
                n >= 1,
                l >= 1,
        ;
    } else {
        let k = if s.player > cur {
            s.player - cur
        } else {
            s.player - cur + n
        };
        assert((n - k) * l + l <= n * l && 0 <= (n - k) * l) by (nonlinear_arith)
            requires
                1 <= k < n,
                l >= 1,
        ;
    }
}

/// One step of sowing keeps the move in progress in shape, keeps every seed
/// and every stored seed, and lowers the measure unless it ends the move.
pub(crate) proof fn lemma_step(s: Sowing)
    requires
        sowing_ok(s),
        s.hand > 0,
    ensures
        sowing_ok(sow_step(s)),
        sow_step(s).hand + seed_total(sow_step(s).board) == s.hand + seed_total(s.board),
        sow_step(s).hand > 0 ==> sow_measure(sow_step(s)) < sow_measure(s),
        sow_step(s).board.current == s.board.current,
        sow_step(s).board.pits_per_row == s.board.pits_per_row,
        sow_step(s).board.sides.len() == s.board.sides.len(),
        sow_step(s).hand == 0 ==> sow_step(s).index == s.index && sow_step(s).player == s.player,
        forall|q: int|
            0 <= q < s.board.sides.len() ==> (#[trigger] sow_step(s).board.sides[q]).store
                >= s.board.sides[q].store,
{
    let b = s.board;
    let l = b.pits_per_row as int;
    let c2 = lap(b) + 1;
    lemma_totals_nonneg(b.sides);
    lemma_dist_bound(s);
    if s.index == l {
        let v = (b.sides[s.player].store + 1) as u32;
        lemma_totals_update(b.sides, s.player, SideView { store: v, ..b.sides[s.player] });
        lemma_with_store(b, s.player, v);
        let b2 = with_store(b, s.player, v);
        if s.hand >= 2 {
            let t = Sowing { board: b2, hand: s.hand - 1, ..s };
            lemma_advance_from_store(t);
            let x = s.hand + pit_total(b.sides);
            assert((x - 1) * c2 + (c2 - 1) < x * c2) by (nonlinear_arith);
        }
    } else {
        let c = b.sides[s.player].pits[s.index];
        lemma_with_pit(b, s.player, s.index, 0);
        if s.hand >= 2 {
            let v = (c + 1) as u32;
            lemma_with_pit(b, s.player, s.index, v);
            lemma_advance_from_pit(
                Sowing { board: with_pit(b, s.player, s.index, v), hand: s.hand - 1, ..s },
            );
        } else if c >= 1 {
            lemma_advance_from_pit(
                Sowing { board: with_pit(b, s.player, s.index, 0), hand: s.hand + c, ..s },
            );
        } else {
            lemma_with_pit(b, s.player, s.index, 1);
        }
    }
}

/// Given more fuel than its measure, a move in progress comes to rest with an
/// empty hand, in shape, with every seed kept.
pub(crate) proof fn lemma_run(s: Sowing, fuel: nat)
    requires
        sowing_ok(s),
        s.hand == 0 || fuel > sow_measure(s),
    ensures
        sow_run(s, fuel).hand == 0,
        sowing_ok(sow_run(s, fuel)),
        seed_total(sow_run(s, fuel).board) == s.hand + seed_total(s.board),
        sow_run(s, fuel).board.current == s.board.current,
        sow_run(s, fuel).board.pits_per_row == s.board.pits_per_row,
        sow_run(s, fuel).board.sides.len() == s.board.sides.len(),
    decreases fuel,
{
    if s.hand > 0 {
        lemma_step(s);
        lemma_run(sow_step(s), (fuel - 1) as nat);
    }
}

pub(crate) proof fn lemma_row_sum_fill(fill: u32, len: nat)
    ensures
        row_sum(Seq::new(len, |i: int| fill)) == fill * len,
    decreases len,
{
    if len > 0 {
        let s = Seq::new(len, |i: int| fill);
        assert(s.drop_last() =~= Seq::new((len - 1) as nat, |i: int| fill));
        lemma_row_sum_fill(fill, (len - 1) as nat);
        assert(fill * (len - 1) + fill == fill * len) by (nonlinear_arith);
    } else {
        assert(fill * len == 0) by (nonlinear_arith)
            requires
                len == 0,
        ;
    }
}

/// A fresh board holds its fill in every pit and nothing in its stores.
pub(crate) proof fn lemma_initial_totals(fill: u32, len: nat, names: Seq<Seq<char>>)
    ensures
        pit_total(initial_board(fill, len, names).sides) == fill * len * names.len(),
        store_total(initial_board(fill, len, names).sides) == 0,
    decreases names.len(),
{
    if names.len() > 0 {
        let sides = initial_board(fill, len, names).sides;
        assert(sides.drop_last() =~= initial_board(fill, len, names.drop_last()).sides);
        lemma_initial_totals(fill, len, names.drop_last());
        lemma_row_sum_fill(fill, len);
        let n = names.len() as int;
        assert(fill * len * (n - 1) + fill * len == fill * len * n) by (nonlinear_arith);
    } else {
        let n = names.len() as int;
        assert(fill * len * n == 0) by (nonlinear_arith)
            requires
                n == 0,
        ;
    }
}

/// The side after `p` is `p + 1` taken modulo the number of sides.
pub(crate) proof fn lemma_next_side_mod(p: int, n: int)
    requires
        0 <= p < n,
    ensures
        next_side(p, n) == (p + 1) % n,
{
    if p + 1 < n {
        vstd::arithmetic::div_mod::lemma_small_mod((p + 1) as nat, n as nat);
    } else {
        vstd::arithmetic::div_mod::lemma_mod_self_0(n);
    }
}

/// A prefix of a row holds no more than the row.
pub(crate) proof fn lemma_row_sum_prefix(s: Seq<u32>, j: int)
    requires
        0 <= j <= s.len(),
    ensures
        row_sum(s.subrange(0, j)) <= row_sum(s),
    decreases s.len(),
{
    if j < s.len() {
        assert(s.drop_last().subrange(0, j) =~= s.subrange(0, j));
        lemma_row_sum_prefix(s.drop_last(), j);
    } else {
        assert(s.subrange(0, j) =~= s);
    }
}

} // verus!
