//! Lower bounds: no sequence of moves solves a fresh game in fewer than
//! `2^n - 1` moves, and none solves a game from any legal position in fewer
//! moves than the plan of `solve_from_current`.

use vstd::prelude::*;
use vstd::arithmetic::power2::{pow2, lemma_pow2_unfold, lemma_pow2_pos};
use crate::peg::{Peg, Move, peg_id, peg_at, third_peg, lemma_third_peg, lemma_peg_id_round_trip};
use crate::solver::{gather_moves, solution_from, lemma_gather_len, lemma_hanoi_len};
use crate::model::{
    HanoiState, MAX_GAME_DISKS, valid_state, positions, play, move_outcome, after_move,
    initial_state, is_solved_state, lemma_move_relocates, lemma_valid_state, lemma_play_concat, lemma_play_around_move,
    lemma_initial_state, lemma_solved_iff_all_right,
};

verus! {

/// The disk that move `m` takes in state `s`: the top disk of its source peg.
pub open spec fn moved_disk(s: HanoiState, m: Move) -> int {
    s.pegs[peg_id(m.from)].last() as int
}

/// How many of the moves of `ms`, played from `s` until one is refused,
/// move a disk of size `lo..=hi`.
pub open spec fn moves_in_range(s: HanoiState, ms: Seq<Move>, lo: int, hi: int) -> nat
    decreases ms.len(),
{
    if ms.len() == 0 || !(move_outcome(s, ms[0]) is Ok) {
        0
    } else {
        (if lo <= moved_disk(s, ms[0]) <= hi { 1nat } else { 0nat }) + moves_in_range(
            after_move(s, ms[0]),
            ms.drop_first(),
            lo,
            hi,
        )
    }
}

/// Counting over `a + b` counts over `a`, then over `b` from where `a` ended.
proof fn lemma_count_concat(s: HanoiState, a: Seq<Move>, b: Seq<Move>, lo: int, hi: int)
    requires
        play(s, a) is Some,
    ensures
        moves_in_range(s, a + b, lo, hi) == moves_in_range(s, a, lo, hi) + moves_in_range(
            play(s, a)->Some_0,
            b,
            lo,
            hi,
        ),
    decreases a.len(),
{
    if a.len() == 0 {
        assert(a + b =~= b);
    } else {
        assert((a + b)[0] == a[0]);
        assert((a + b).drop_first() =~= a.drop_first() + b);
        lemma_count_concat(after_move(s, a[0]), a.drop_first(), b, lo, hi);
    }
}

/// Counting over `p`, the allowed move `m`, then `q`: the counts of `p` and
/// of `q` from where `m` leaves off, plus one when `m` moves a counted disk.
proof fn lemma_count_around_move(s: HanoiState, p: Seq<Move>, m: Move, q: Seq<Move>, lo: int, hi: int)
    requires
        play(s, p) is Some,
        move_outcome(play(s, p)->Some_0, m) is Ok,
    ensures
        play(s, p + seq![m]) == Some(after_move(play(s, p)->Some_0, m)),
        play(s, p + seq![m] + q) == play(after_move(play(s, p)->Some_0, m), q),
        moves_in_range(s, p + seq![m] + q, lo, hi) == moves_in_range(s, p, lo, hi) + (if lo
            <= moved_disk(play(s, p)->Some_0, m) <= hi {
            1nat
        } else {
            0nat
        }) + moves_in_range(after_move(play(s, p)->Some_0, m), q, lo, hi),
{
    let s1 = play(s, p)->Some_0;
    let t1 = after_move(s1, m);
    lemma_play_around_move(s, p, m, q);
    lemma_count_concat(s, p, seq![m], lo, hi);
    lemma_count_concat(s, p + seq![m], q, lo, hi);
    assert(seq![m][0] == m);
    assert(seq![m].drop_first() =~= Seq::<Move>::empty());
    assert(moves_in_range(t1, Seq::<Move>::empty(), lo, hi) == 0);
}

/// Counting the moves of disks `1..=k` counts those of `1..=k-1` and of `k`;
/// no count exceeds the number of moves.
proof fn lemma_count_split(s: HanoiState, ms: Seq<Move>, k: int)
    requires
        k >= 1,
    ensures
        moves_in_range(s, ms, 1, k) == moves_in_range(s, ms, 1, k - 1) + moves_in_range(s, ms, k, k),
        moves_in_range(s, ms, 1, k) <= ms.len(),
    decreases ms.len(),
{
    if ms.len() > 0 && move_outcome(s, ms[0]) is Ok {
        let t = after_move(s, ms[0]);
        let rest = ms.drop_first();
        lemma_count_split(t, rest, k);
        let d = moved_disk(s, ms[0]);
        assert(moves_in_range(s, ms, 1, k) == (if 1 <= d <= k { 1nat } else { 0nat })
            + moves_in_range(t, rest, 1, k));
        assert(moves_in_range(s, ms, 1, k - 1) == (if 1 <= d <= k - 1 { 1nat } else { 0nat })
            + moves_in_range(t, rest, 1, k - 1));
        assert(moves_in_range(s, ms, k, k) == (if k <= d <= k { 1nat } else { 0nat })
            + moves_in_range(t, rest, k, k));
    }
}

/// A disk that no move of `ms` takes stays on its peg.
proof fn lemma_unmoved_disk_stays(s: HanoiState, ms: Seq<Move>, d: int)
    requires
        valid_state(s),
        1 <= d <= s.num_disks,
        play(s, ms) is Some,
        moves_in_range(s, ms, d, d) == 0,
    ensures
        valid_state(play(s, ms)->Some_0),
        play(s, ms)->Some_0.num_disks == s.num_disks,
        positions(play(s, ms)->Some_0)[d - 1] == positions(s)[d - 1],
    decreases ms.len(),
{
    if ms.len() > 0 {
        lemma_move_relocates(s, ms[0]);
        lemma_unmoved_disk_stays(after_move(s, ms[0]), ms.drop_first(), d);
    }
}

/// The first move of disk `d`: `ms` is `p + [m] + q`, where `p` does not move
/// `d` and `m` does.
proof fn lemma_first_move_of(s: HanoiState, ms: Seq<Move>, d: int) -> (r: (Seq<Move>, Move, Seq<Move>))
    requires
        play(s, ms) is Some,
        moves_in_range(s, ms, d, d) >= 1,
    ensures
        ms == r.0 + seq![r.1] + r.2,
        play(s, r.0) is Some,
        moves_in_range(s, r.0, d, d) == 0,
        move_outcome(play(s, r.0)->Some_0, r.1) is Ok,
        moved_disk(play(s, r.0)->Some_0, r.1) == d,
    decreases ms.len(),
{
    let m0 = ms[0];
    let rest = ms.drop_first();
    assert(play(s, Seq::<Move>::empty()) == Some(s));
    if moved_disk(s, m0) == d {
        assert(ms =~= Seq::<Move>::empty() + seq![m0] + rest);
        (Seq::empty(), m0, rest)
    } else {
        let s1 = after_move(s, m0);
        let (p1, m, q) = lemma_first_move_of(s1, rest, d);
        let p = seq![m0] + p1;
        assert(p[0] == m0);
        assert(p.drop_first() =~= p1);
        assert(ms =~= seq![m0] + rest);
        assert(ms =~= p + seq![m] + q);
        (p, m, q)
    }
}

/// The last move of disk `d`: `ms` is `p + [m] + q`, where `m` moves `d` and
/// `q` does not.
proof fn lemma_last_move_of(s: HanoiState, ms: Seq<Move>, d: int) -> (r: (Seq<Move>, Move, Seq<Move>))
    requires
        play(s, ms) is Some,
        moves_in_range(s, ms, d, d) >= 1,
    ensures
        ms == r.0 + seq![r.1] + r.2,
        play(s, r.0) is Some,
        move_outcome(play(s, r.0)->Some_0, r.1) is Ok,
        moved_disk(play(s, r.0)->Some_0, r.1) == d,
        play(after_move(play(s, r.0)->Some_0, r.1), r.2) is Some,
        moves_in_range(after_move(play(s, r.0)->Some_0, r.1), r.2, d, d) == 0,
    decreases ms.len(),
{
    let m0 = ms[0];
    let rest = ms.drop_first();
    let s1 = after_move(s, m0);
    assert(play(s, Seq::<Move>::empty()) == Some(s));
    if moves_in_range(s1, rest, d, d) >= 1 {
        let (p1, m, q) = lemma_last_move_of(s1, rest, d);
        let p = seq![m0] + p1;
        assert(p[0] == m0);
        assert(p.drop_first() =~= p1);
        assert(ms =~= seq![m0] + rest);
        assert(ms =~= p + seq![m] + q);
        (p, m, q)
    } else {
        assert(ms =~= Seq::<Move>::empty() + seq![m0] + rest);
        (Seq::empty(), m0, rest)
    }
}

/// When disk `k` moves in a legal state, every smaller disk sits on the peg
/// that is neither its source nor its destination.
proof fn lemma_big_move_parks_smaller(s: HanoiState, m: Move, k: int)
    requires
        valid_state(s),
        move_outcome(s, m) is Ok,
        moved_disk(s, m) == k,
    ensures
        1 <= k <= s.num_disks,
        positions(s)[k - 1] == peg_id(m.from),
        positions(after_move(s, m)) == positions(s).update(k - 1, peg_id(m.to)),
        valid_state(after_move(s, m)),
        after_move(s, m).num_disks == s.num_disks,
        forall|i: int|
            0 <= i < k - 1 ==> #[trigger] positions(s)[i] == 3 - peg_id(m.from) - peg_id(m.to),
{
    lemma_move_relocates(s, m);
    lemma_valid_state(s);
    assert forall|i: int| 0 <= i < k - 1 implies #[trigger] positions(s)[i] == 3 - peg_id(m.from)
        - peg_id(m.to) by {
        assert(0 <= positions(s)[i] < 3);
    }
}

/// Moving a tower: from a legal state with disks `1..=k` on peg `a`, any
/// sequence that ends with them on another peg `b` moves one of them at
/// least `2^k - 1` times.
pub proof fn lemma_tower_move_lower_bound(s: HanoiState, ms: Seq<Move>, k: nat, a: int, b: int)
    requires
        valid_state(s),
        k <= s.num_disks,
        0 <= a < 3,
        0 <= b < 3,
        a != b,
        forall|i: int| 0 <= i < k ==> positions(s)[i] == a,
        play(s, ms) matches Some(f) && forall|i: int| 0 <= i < k ==> positions(f)[i] == b,
    ensures
        moves_in_range(s, ms, 1, k as int) >= pow2(k) - 1,
    decreases k,
{
    if k == 0 {
        vstd::arithmetic::power2::lemma2_to64();
        return;
    }
    let k1 = (k - 1) as nat;
    let ki = k as int;
    let f = play(s, ms)->Some_0;
    lemma_pow2_unfold(k);
    lemma_pow2_pos(k1);
    lemma_valid_state(s);
    // Disk k ends elsewhere, so it moves.
    if moves_in_range(s, ms, ki, ki) == 0 {
        lemma_unmoved_disk_stays(s, ms, ki);
        assert(positions(f)[ki - 1] == b);
        assert(false);
    }
    // Before its first move, the smaller disks leave `a` for the third peg.
    let (p1, m1, q1) = lemma_first_move_of(s, ms, ki);
    let s1 = play(s, p1)->Some_0;
    lemma_unmoved_disk_stays(s, p1, ki);
    lemma_big_move_parks_smaller(s1, m1, ki);
    let x = 3 - a - peg_id(m1.to);
    lemma_tower_move_lower_bound(s, p1, k1, a, x);
    let t1 = after_move(s1, m1);
    // Split the count around the first move.
    lemma_count_around_move(s, p1, m1, q1, 1, ki);
    lemma_count_split(s, p1, ki);
    lemma_count_split(t1, q1, ki);
    assert(play(t1, q1) == Some(f));
    if moves_in_range(t1, q1, ki, ki) == 0 {
        // Disk k never moves again: it already sits on `b`.
        lemma_unmoved_disk_stays(t1, q1, ki);
        lemma_tower_move_lower_bound(t1, q1, k1, x, b);
    } else {
        // After its last move, the smaller disks come onto it from the third peg.
        let (p2, m2, q2) = lemma_last_move_of(t1, q1, ki);
        let s2 = play(t1, p2)->Some_0;
        lemma_reached_is_valid(t1, p2);
        lemma_big_move_parks_smaller(s2, m2, ki);
        let t2 = after_move(s2, m2);
        lemma_count_around_move(t1, p2, m2, q2, 1, ki);
        assert(play(t2, q2) == Some(f));
        lemma_unmoved_disk_stays(t2, q2, ki);
        let y = 3 - peg_id(m2.from) - b;
        lemma_tower_move_lower_bound(t2, q2, k1, y, b);
        lemma_count_split(t2, q2, ki);
    }
}

/// Every state reached by playing moves from a legal state is legal.
proof fn lemma_reached_is_valid(s: HanoiState, ms: Seq<Move>)
    requires
        valid_state(s),
        play(s, ms) is Some,
    ensures
        valid_state(play(s, ms)->Some_0),
        play(s, ms)->Some_0.num_disks == s.num_disks,
    decreases ms.len(),
{
    if ms.len() > 0 {
        lemma_move_relocates(s, ms[0]);
        lemma_reached_is_valid(after_move(s, ms[0]), ms.drop_first());
    }
}

/// `minimum_moves` is a minimum: every sequence of moves that solves a fresh
/// game of `n` disks holds at least `2^n - 1` moves.
pub proof fn lemma_no_shorter_solution(n: nat, ms: Seq<Move>)
    requires
        1 <= n <= MAX_GAME_DISKS,
        play(initial_state(n), ms) matches Some(f) && is_solved_state(f),
    ensures
        ms.len() >= pow2(n) - 1,
{
    let s = initial_state(n);
    lemma_initial_state(n);
    lemma_reached_is_valid(s, ms);
    lemma_solved_iff_all_right(play(s, ms)->Some_0);
    lemma_tower_move_lower_bound(s, ms, n, 0, 2);
    lemma_count_split(s, ms, n as int);
}

/// The plan is a lower bound: from a legal state, any sequence that ends with
/// disks `1..=k` on `t` moves one of them at least as often as the plan for
/// `k` disks onto `t` has moves.
pub proof fn lemma_gather_lower_bound(s: HanoiState, ms: Seq<Move>, k: nat, t: Peg)
    requires
        valid_state(s),
        k <= s.num_disks,
        play(s, ms) matches Some(f) && forall|i: int| 0 <= i < k ==> positions(f)[i] == peg_id(t),
    ensures
        moves_in_range(s, ms, 1, k as int) >= gather_moves(positions(s), k, t).len(),
    decreases k,
{
    if k == 0 {
        return;
    }
    let k1 = (k - 1) as nat;
    let ki = k as int;
    let pos = positions(s);
    let f = play(s, ms)->Some_0;
    lemma_valid_state(s);
    lemma_count_split(s, ms, ki);
    if pos[k - 1] == peg_id(t) {
        lemma_gather_lower_bound(s, ms, k1, t);
        return;
    }
    let from = peg_at(pos[k - 1]);
    lemma_peg_id_round_trip(from, pos[k - 1]);
    lemma_peg_id_round_trip(t, 0);
    lemma_third_peg(from, t);
    let aux = third_peg(from, t);
    lemma_hanoi_len(k1, aux, t, from);
    lemma_gather_len(pos, k1, aux);
    lemma_pow2_unfold(k);
    lemma_pow2_pos(k1);
    // Disk k ends on `t`, away from where it starts, so it moves.
    if moves_in_range(s, ms, ki, ki) == 0 {
        lemma_unmoved_disk_stays(s, ms, ki);
        assert(false);
    }
    let (p1, m1, q1) = lemma_first_move_of(s, ms, ki);
    let s1 = play(s, p1)->Some_0;
    lemma_unmoved_disk_stays(s, p1, ki);
    lemma_big_move_parks_smaller(s1, m1, ki);
    let t1 = after_move(s1, m1);
    lemma_count_around_move(s, p1, m1, q1, 1, ki);
    lemma_count_split(s, p1, ki);
    lemma_count_split(t1, q1, ki);
    assert(play(t1, q1) == Some(f));
    if m1.to == t {
        // The smaller disks were gathered onto `aux`, then go onto disk k.
        lemma_gather_lower_bound(s, p1, k1, aux);
        lemma_tower_move_lower_bound(t1, q1, k1, peg_id(aux), peg_id(t));
    } else {
        // Disk k went to the third peg, over the smaller disks gathered on
        // `t`; it moves again, and the smaller disks leave `t` and come back.
        if moves_in_range(t1, q1, ki, ki) == 0 {
            lemma_unmoved_disk_stays(t1, q1, ki);
            assert(false);
        }
        let (p2, m2, q2) = lemma_last_move_of(t1, q1, ki);
        let s2 = play(t1, p2)->Some_0;
        lemma_reached_is_valid(t1, p2);
        lemma_big_move_parks_smaller(s2, m2, ki);
        let t2 = after_move(s2, m2);
        lemma_count_around_move(t1, p2, m2, q2, 1, ki);
        assert(play(t2, q2) == Some(f));
        lemma_unmoved_disk_stays(t2, q2, ki);
        let y = 3 - peg_id(m2.from) - peg_id(t);
        lemma_tower_move_lower_bound(t1, p2, k1, peg_id(t), y);
        lemma_tower_move_lower_bound(t2, q2, k1, y, peg_id(t));
        lemma_count_split(t1, p2, ki);
        lemma_count_split(t2, q2, ki);
    }
}

/// The plan of `solve_from_current` is a shortest solution: from any legal
/// state, every sequence of moves that solves the game holds at least as
/// many moves as the plan.
pub proof fn lemma_plan_is_shortest(s: HanoiState, ms: Seq<Move>)
    requires
        valid_state(s),
        play(s, ms) matches Some(f) && is_solved_state(f),
    ensures
        ms.len() >= solution_from(s).len(),
{
    lemma_reached_is_valid(s, ms);
    lemma_solved_iff_all_right(play(s, ms)->Some_0);
    lemma_gather_lower_bound(s, ms, s.num_disks, Peg::Right);
    lemma_count_split(s, ms, s.num_disks as int);
}

} // verus!
