//! Solving the puzzle: the classic tower transfer, and a plan that brings
//! any legal position to the solved one.

use vstd::prelude::*;
use vstd::arithmetic::power2::{pow2, lemma_pow2_unfold, lemma_pow2_pos};
use crate::peg::{Peg, Move, peg_id, peg_at, third_peg, other_peg, lemma_third_peg, lemma_peg_id_round_trip};
use crate::model::{
    HanoiState, MAX_GAME_DISKS, valid_state, positions, placement, state_of, play,
    initial_state, is_solved_state, tower, lemma_state_of, lemma_stack_ends_with_tower, lemma_valid_state, lemma_play_around_move,
    lemma_move_ok, lemma_stack_contains, lemma_initial_state, lemma_solved_iff_all_right,
};
use crate::game::HanoiGame;
use crate::optimality::lemma_plan_is_shortest;

verus! {

/// The classic solution: move a tower of `n` disks from `src` to `dst` using
/// `aux`; first the `n - 1` smaller disks go to `aux`, then the largest disk
/// goes to `dst`, then the smaller disks go from `aux` onto it.
pub open spec fn hanoi_moves(n: nat, src: Peg, dst: Peg, aux: Peg) -> Seq<Move>
    decreases n,
{
    if n == 0 {
        Seq::empty()
    } else {
        hanoi_moves((n - 1) as nat, src, aux, dst) + seq![Move { from: src, to: dst }]
            + hanoi_moves((n - 1) as nat, aux, dst, src)
    }
}

/// The assignment `pos` with disks `1..=k` moved to peg `t`.
pub open spec fn relocate(pos: Seq<int>, k: nat, t: int) -> Seq<int> {
    Seq::new(pos.len(), |i: int| if i < k { t } else { pos[i] })
}

/// The plan that brings disks `1..=k` onto peg `t` from the assignment `pos`:
/// if disk `k` is already on `t`, bring the smaller disks there; otherwise
/// bring the smaller disks to the third peg, move disk `k` to `t`, and move
/// the tower of smaller disks from the third peg onto it.
pub open spec fn gather_moves(pos: Seq<int>, k: nat, t: Peg) -> Seq<Move>
    decreases k,
{
    if k == 0 {
        Seq::empty()
    } else if pos[k - 1] == peg_id(t) {
        gather_moves(pos, (k - 1) as nat, t)
    } else {
        let from = peg_at(pos[k - 1]);
        let aux = third_peg(from, t);
        gather_moves(pos, (k - 1) as nat, aux) + seq![Move { from: from, to: t }]
            + hanoi_moves((k - 1) as nat, aux, t, from)
    }
}

/// The plan that solves a game from its current state.
pub open spec fn solution_from(s: HanoiState) -> Seq<Move> {
    gather_moves(positions(s), s.num_disks, Peg::Right)
}

proof fn lemma_pow2_step(k: nat)
    requires
        k > 0,
    ensures
        pow2(k) == 2 * pow2((k - 1) as nat),
        pow2((k - 1) as nat) >= 1,
{
    lemma_pow2_unfold(k);
    lemma_pow2_pos((k - 1) as nat);
}

/// The classic solution for `n` disks takes `2^n - 1` moves.
pub proof fn lemma_hanoi_len(n: nat, src: Peg, dst: Peg, aux: Peg)
    ensures
        hanoi_moves(n, src, dst, aux).len() == pow2(n) - 1,
    decreases n,
{
    if n == 0 {
        vstd::arithmetic::power2::lemma2_to64();
    } else {
        lemma_pow2_step(n);
        lemma_hanoi_len((n - 1) as nat, src, aux, dst);
        lemma_hanoi_len((n - 1) as nat, aux, dst, src);
    }
}

/// The plan for `k` disks takes at most `2^k - 1` moves.
pub proof fn lemma_gather_len(pos: Seq<int>, k: nat, t: Peg)
    ensures
        gather_moves(pos, k, t).len() <= pow2(k) - 1,
    decreases k,
{
    if k == 0 {
        vstd::arithmetic::power2::lemma2_to64();
    } else {
        lemma_pow2_step(k);
        let from = peg_at(pos[k - 1]);
        let aux = third_peg(from, t);
        lemma_gather_len(pos, (k - 1) as nat, t);
        lemma_gather_len(pos, (k - 1) as nat, aux);
        lemma_hanoi_len((k - 1) as nat, aux, t, from);
    }
}

/// Gathering disks that already form a tower on another peg `a` is the
/// classic tower transfer from `a`.
pub proof fn lemma_gather_tower(pos: Seq<int>, k: nat, a: Peg, t: Peg)
    requires
        a != t,
        forall|i: int| 0 <= i < k ==> pos[i] == peg_id(a),
    ensures
        gather_moves(pos, k, t) == hanoi_moves(k, a, t, third_peg(a, t)),
    decreases k,
{
    if k > 0 {
        lemma_peg_id_round_trip(a, 0);
        lemma_third_peg(a, t);
        let aux = third_peg(a, t);
        lemma_gather_tower(pos, (k - 1) as nat, a, aux);
    }
}

/// Gathering disks that are all on `t` already takes no move.
pub proof fn lemma_gather_done(pos: Seq<int>, k: nat, t: Peg)
    requires
        forall|i: int| 0 <= i < k ==> pos[i] == peg_id(t),
    ensures
        gather_moves(pos, k, t) == Seq::<Move>::empty(),
    decreases k,
{
    if k > 0 {
        lemma_gather_done(pos, (k - 1) as nat, t);
    }
}

/// Relocating keeps an assignment an assignment.
proof fn lemma_relocate_placement(pos: Seq<int>, n: nat, k: nat, t: int)
    requires
        placement(pos, n),
        0 <= t < 3,
    ensures
        placement(relocate(pos, k, t), n),
{
}

/// Tower transfer: in a legal state where disks `1..=k` all sit on `src`,
/// the classic solution plays through without a refused move, and ends in the
/// state where those disks sit on `dst`, every other disk where it was, after
/// `2^k - 1` more moves.
pub proof fn lemma_hanoi_transfers(s: HanoiState, k: nat, src: Peg, dst: Peg, aux: Peg)
    requires
        valid_state(s),
        k <= s.num_disks,
        src != dst,
        src != aux,
        dst != aux,
        forall|i: int| 0 <= i < k ==> positions(s)[i] == peg_id(src),
    ensures
        play(s, hanoi_moves(k, src, dst, aux)) == Some(
            state_of(relocate(positions(s), k, peg_id(dst)), s.num_disks, (s.move_count + pow2(k) - 1) as nat),
        ),
    decreases k,
{
    let n = s.num_disks;
    let pos = positions(s);
    lemma_valid_state(s);
    if k == 0 {
        vstd::arithmetic::power2::lemma2_to64();
        assert(relocate(pos, 0, peg_id(dst)) =~= pos);
    } else {
        let k1 = (k - 1) as nat;
        lemma_pow2_step(k);
        let a = hanoi_moves(k1, src, aux, dst);
        let m = Move { from: src, to: dst };
        let b = hanoi_moves(k1, aux, dst, src);
        // The smaller disks go to `aux`.
        lemma_hanoi_transfers(s, k1, src, aux, dst);
        let pos1 = relocate(pos, k1, peg_id(aux));
        let s1 = state_of(pos1, n, (s.move_count + pow2(k1) - 1) as nat);
        lemma_relocate_placement(pos, n, k1, peg_id(aux));
        lemma_state_of(pos1, n, s1.move_count);
        // The largest disk goes to `dst`.
        lemma_move_ok(s1, m, k as int);
        let pos2 = pos1.update(k - 1, peg_id(dst));
        let s2 = state_of(pos2, n, s1.move_count + 1);
        assert(placement(pos2, n));
        lemma_state_of(pos2, n, s2.move_count);
        // The smaller disks go from `aux` onto it.
        lemma_hanoi_transfers(s2, k1, aux, dst, src);
        assert(relocate(pos2, k1, peg_id(dst)) =~= relocate(pos, k, peg_id(dst)));
        lemma_play_around_move(s, a, m, b);
    }
}

/// Gathering plays through: from any legal state, the plan for `k` disks
/// plays without a refused move, and ends in the state where disks `1..=k`
/// sit on `t` and every other disk where it was.
pub proof fn lemma_gather_plays(s: HanoiState, k: nat, t: Peg)
    requires
        valid_state(s),
        k <= s.num_disks,
    ensures
        play(s, gather_moves(positions(s), k, t)) == Some(
            state_of(
                relocate(positions(s), k, peg_id(t)),
                s.num_disks,
                s.move_count + gather_moves(positions(s), k, t).len(),
            ),
        ),
    decreases k,
{
    let n = s.num_disks;
    let pos = positions(s);
    lemma_valid_state(s);
    if k == 0 {
        assert(relocate(pos, 0, peg_id(t)) =~= pos);
    } else {
        let k1 = (k - 1) as nat;
        if pos[k - 1] == peg_id(t) {
            lemma_gather_plays(s, k1, t);
            assert(relocate(pos, k1, peg_id(t)) =~= relocate(pos, k, peg_id(t)));
        } else {
            let from = peg_at(pos[k - 1]);
            lemma_peg_id_round_trip(from, pos[k - 1]);
            lemma_peg_id_round_trip(t, 0);
            lemma_third_peg(from, t);
            let aux = third_peg(from, t);
            let a = gather_moves(pos, k1, aux);
            let m = Move { from: from, to: t };
            let b = hanoi_moves(k1, aux, t, from);
            lemma_gather_plays(s, k1, aux);
            let pos1 = relocate(pos, k1, peg_id(aux));
            let s1 = state_of(pos1, n, s.move_count + a.len());
            lemma_relocate_placement(pos, n, k1, peg_id(aux));
            lemma_state_of(pos1, n, s1.move_count);
            lemma_move_ok(s1, m, k as int);
            let pos2 = pos1.update(k - 1, peg_id(t));
            let s2 = state_of(pos2, n, s1.move_count + 1);
            assert(placement(pos2, n));
            lemma_state_of(pos2, n, s2.move_count);
            lemma_hanoi_transfers(s2, k1, aux, t, from);
            lemma_hanoi_len(k1, aux, t, from);
            assert(relocate(pos2, k1, peg_id(t)) =~= relocate(pos, k, peg_id(t)));
            lemma_play_around_move(s, a, m, b);
        }
    }
}

/// What the plan for `k` disks does, stated of the pegs: played from a legal
/// state it refuses no move, counts one move per step, and ends in a legal
/// state where disks `1..=k` sit on `t`, topped as a full tower `k, ..., 1`,
/// and every larger disk keeps its peg.
pub proof fn lemma_gather_result(s: HanoiState, k: nat, t: Peg)
    requires
        valid_state(s),
        k <= s.num_disks,
    ensures
        ({
            let f = state_of(
                relocate(positions(s), k, peg_id(t)),
                s.num_disks,
                s.move_count + gather_moves(positions(s), k, t).len(),
            );
            &&& play(s, gather_moves(positions(s), k, t)) == Some(f)
            &&& valid_state(f)
            &&& f.num_disks == s.num_disks
            &&& f.move_count == s.move_count + gather_moves(positions(s), k, t).len()
            &&& forall|i: int| 0 <= i < k ==> positions(f)[i] == peg_id(t)
            &&& forall|i: int| k <= i < s.num_disks ==> positions(f)[i] == positions(s)[i]
            &&& f.pegs[peg_id(t)].len() >= k
            &&& f.pegs[peg_id(t)].subrange(
                f.pegs[peg_id(t)].len() - k,
                f.pegs[peg_id(t)].len() as int,
            ) == tower(k)
        }),
{
    let n = s.num_disks;
    let pos = relocate(positions(s), k, peg_id(t));
    lemma_valid_state(s);
    lemma_gather_plays(s, k, t);
    lemma_peg_id_round_trip(t, 0);
    lemma_relocate_placement(positions(s), n, k, peg_id(t));
    lemma_state_of(pos, n, s.move_count + gather_moves(positions(s), k, t).len());
    lemma_stack_ends_with_tower(pos, n, peg_id(t), k);
}

/// Compute the full sequence of moves to solve Tower of Hanoi from `source`
/// to `target` using `aux` as the auxiliary peg, for `n` disks.
pub fn solve(n: u8, source: Peg, target: Peg, aux: Peg) -> (moves: Vec<Move>)
    requires
        pow2(n as nat) - 1 <= usize::MAX,
    ensures
        moves@ == hanoi_moves(n as nat, source, target, aux),
        moves@.len() == pow2(n as nat) - 1,
{
    let mut moves: Vec<Move> = Vec::new();
    solve_recursive(n, source, target, aux, &mut moves);
    proof {
        lemma_hanoi_len(n as nat, source, target, aux);
        assert(moves@ =~= hanoi_moves(n as nat, source, target, aux));
    }
    moves
}

/// Append the classic solution for `n` disks to `moves`.
fn solve_recursive(n: u8, source: Peg, target: Peg, aux: Peg, moves: &mut Vec<Move>)
    requires
        old(moves)@.len() + pow2(n as nat) - 1 <= usize::MAX,
    ensures
        final(moves)@ == old(moves)@ + hanoi_moves(n as nat, source, target, aux),
    decreases n,
{
    if n == 0 {
        assert(old(moves)@ + hanoi_moves(0, source, target, aux) =~= old(moves)@);
        return;
    }
    proof {
        lemma_pow2_step(n as nat);
        lemma_hanoi_len((n - 1) as nat, source, aux, target);
    }
    solve_recursive(n - 1, source, aux, target, moves);
    moves.push(Move { from: source, to: target });
    solve_recursive(n - 1, aux, target, source, moves);
    assert(final(moves)@ =~= old(moves)@ + hanoi_moves(n as nat, source, target, aux));
}

/// Whether `disk` is among `disks`.
fn holds(disks: &[u8], disk: u8) -> (r: bool)
    ensures
        r == disks@.contains(disk),
{
    let mut i: usize = 0;
    while i < disks.len()
        invariant
            i <= disks.len(),
            forall|j: int| 0 <= j < i ==> disks@[j] != disk,
        decreases disks.len() - i,
    {
        if disks[i] == disk {
            return true;
        }
        i = i + 1;
    }
    false
}

/// The peg that holds `disk`.
fn find_disk(state: &HanoiGame, disk: u8) -> (r: Peg)
    requires
        valid_state(state@),
        1 <= disk <= state@.num_disks,
    ensures
        peg_id(r) == positions(state@)[disk - 1],
        state@.pegs[peg_id(r)].contains(disk),
{
    proof {
        lemma_valid_state(state@);
        lemma_stack_contains(positions(state@), state@.num_disks, 2, disk as int);
    }
    if holds(state.disks_on(Peg::Left), disk) {
        Peg::Left
    } else if holds(state.disks_on(Peg::Middle), disk) {
        Peg::Middle
    } else {
        Peg::Right
    }
}

/// Recursively move disks `1..=n` to `target` peg, recording the moves.
pub fn move_disks_to_target(state: &mut HanoiGame, n: u8, target: Peg, moves: &mut Vec<Move>)
    requires
        valid_state(old(state)@),
        n <= old(state)@.num_disks,
        old(state)@.move_count + pow2(n as nat) - 1 <= u32::MAX,
        old(moves)@.len() + pow2(n as nat) - 1 <= usize::MAX,
    ensures
        final(moves)@ == old(moves)@ + gather_moves(positions(old(state)@), n as nat, target),
        play(old(state)@, gather_moves(positions(old(state)@), n as nat, target)) == Some(
            final(state)@,
        ),
        forall|i: int| 0 <= i < n ==> positions(final(state)@)[i] == peg_id(target),
        forall|i: int|
            n <= i < old(state)@.num_disks ==> positions(final(state)@)[i] == positions(
                old(state)@,
            )[i],
        final(state)@.pegs[peg_id(target)].len() >= n,
        final(state)@.pegs[peg_id(target)].subrange(
            final(state)@.pegs[peg_id(target)].len() - n,
            final(state)@.pegs[peg_id(target)].len() as int,
        ) == tower(n as nat),
        final(state)@ == state_of(
            relocate(positions(old(state)@), n as nat, peg_id(target)),
            old(state)@.num_disks,
            old(state)@.move_count + gather_moves(positions(old(state)@), n as nat, target).len(),
        ),
        valid_state(final(state)@),
    decreases n,
{
    let ghost s0 = state@;
    let ghost pos = positions(s0);
    let ghost count = s0.move_count;
    let ghost total = s0.num_disks;
    proof {
        lemma_valid_state(s0);
    }
    if n == 0 {
        proof {
            assert(relocate(pos, 0, peg_id(target)) =~= pos);
            assert(old(moves)@ + gather_moves(pos, 0, target) =~= old(moves)@);
            lemma_gather_result(s0, 0, target);
        }
        return;
    }
    proof {
        lemma_pow2_step(n as nat);
    }
    let disk_peg = find_disk(state, n);

    if disk_peg == target {
        move_disks_to_target(state, n - 1, target, moves);
        proof {
            assert(relocate(pos, (n - 1) as nat, peg_id(target)) =~= relocate(pos, n as nat, peg_id(target)));
            lemma_gather_result(s0, n as nat, target);
        }
        return;
    }

    let aux = other_peg(disk_peg, target);
    proof {
        lemma_peg_id_round_trip(disk_peg, 0);
        lemma_third_peg(disk_peg, target);
        lemma_gather_len(pos, (n - 1) as nat, aux);
    }
    move_disks_to_target(state, n - 1, aux, moves);
    let ghost s1 = state@;
    let ghost pos1 = relocate(pos, (n - 1) as nat, peg_id(aux));
    let m = Move { from: disk_peg, to: target };
    proof {
        lemma_relocate_placement(pos, total, (n - 1) as nat, peg_id(aux));
        lemma_state_of(pos1, total, s1.move_count);
        lemma_move_ok(s1, m, n as int);
    }
    let r = state.make_move(m);
    assert(r is Ok);
    moves.push(m);
    let ghost pos2 = pos1.update(n - 1, peg_id(target));
    proof {
        assert(placement(pos2, total));
        lemma_state_of(pos2, total, s1.move_count + 1);
        lemma_gather_tower(pos2, (n - 1) as nat, aux, target);
        lemma_third_peg(disk_peg, target);
        lemma_hanoi_len((n - 1) as nat, aux, target, disk_peg);
    }
    move_disks_to_target(state, n - 1, target, moves);
    proof {
        assert(relocate(pos2, (n - 1) as nat, peg_id(target)) =~= relocate(pos, n as nat, peg_id(target)));
        assert(final(moves)@ =~= old(moves)@ + gather_moves(pos, n as nat, target));
        lemma_gather_result(s0, n as nat, target);
    }
}

/// Compute remaining moves to solve the game from its current state.
///
/// The moves, played from the game, refuse none and leave it solved; they
/// are at most `2^n - 1`, and no sequence of moves solves the game in fewer.
pub fn solve_from_current(game: &HanoiGame) -> (moves: Vec<Move>)
    requires
        valid_state(game@),
    ensures
        moves@ == solution_from(game@),
        play(game@, moves@) matches Some(f) && {
            &&& valid_state(f)
            &&& is_solved_state(f)
            &&& f.num_disks == game@.num_disks
            &&& f.move_count == game@.move_count + moves@.len()
        },
        moves@.len() <= pow2(game@.num_disks) - 1,
        forall|ms: Seq<Move>|
            (#[trigger] play(game@, ms) matches Some(f) && is_solved_state(f)) ==> ms.len()
                >= moves@.len(),
{
    let mut moves: Vec<Move> = Vec::new();
    let mut state = game.planning_copy();
    let n = state.num_disks();
    proof {
        vstd::bits::lemma_u32_pow2_no_overflow(n as nat);
        vstd::bits::lemma_usize_pow2_no_overflow(n as nat);
        assert(positions(state@) == positions(game@));
    }
    move_disks_to_target(&mut state, n, Peg::Right, &mut moves);
    assert(moves@ =~= solution_from(game@));
    proof {
        lemma_plan_solves(game@);
        assert forall|ms: Seq<Move>|
            (#[trigger] play(game@, ms) matches Some(f) && is_solved_state(f)) implies ms.len()
                >= moves@.len() by {
            lemma_plan_is_shortest(game@, ms);
        }
    }
    moves
}

/// Solving a fresh game with the classic solution: playing
/// `hanoi_moves(n, Left, Right, Middle)` from the starting position of `n`
/// disks refuses no move and ends solved, after exactly `2^n - 1` moves.
pub proof fn lemma_classic_solves_new_game(n: nat)
    requires
        1 <= n <= MAX_GAME_DISKS,
    ensures
        play(initial_state(n), hanoi_moves(n, Peg::Left, Peg::Right, Peg::Middle)) matches Some(f) && {
            &&& valid_state(f)
            &&& is_solved_state(f)
            &&& f.move_count == pow2(n) - 1
        },
{
    let s = initial_state(n);
    lemma_pow2_pos(n);
    lemma_initial_state(n);
    lemma_valid_state(s);
    lemma_hanoi_transfers(s, n, Peg::Left, Peg::Right, Peg::Middle);
    let pos = relocate(positions(s), n, 2);
    lemma_relocate_placement(positions(s), n, n, 2);
    lemma_state_of(pos, n, (pow2(n) - 1) as nat);
    lemma_solved_iff_all_right(state_of(pos, n, (pow2(n) - 1) as nat));
}

/// The plan from the current state solves the game: played from any legal
/// state it refuses no move and ends in a legal, solved state, having made
/// exactly as many moves as the plan holds, which is at most `2^n - 1`.
pub proof fn lemma_plan_solves(s: HanoiState)
    requires
        valid_state(s),
    ensures
        solution_from(s).len() <= pow2(s.num_disks) - 1,
        play(s, solution_from(s)) matches Some(f) && {
            &&& valid_state(f)
            &&& is_solved_state(f)
            &&& f.num_disks == s.num_disks
            &&& f.move_count == s.move_count + solution_from(s).len()
        },
{
    let n = s.num_disks;
    lemma_valid_state(s);
    lemma_gather_len(positions(s), n, Peg::Right);
    lemma_gather_plays(s, n, Peg::Right);
    let pos = relocate(positions(s), n, 2);
    let count = s.move_count + solution_from(s).len();
    lemma_relocate_placement(positions(s), n, n, 2);
    lemma_state_of(pos, n, count);
    lemma_solved_iff_all_right(state_of(pos, n, count));
}

/// A solved game needs no more moves: its plan is empty.
pub proof fn lemma_solved_needs_no_moves(s: HanoiState)
    requires
        valid_state(s),
        is_solved_state(s),
    ensures
        solution_from(s) == Seq::<Move>::empty(),
{
    lemma_solved_iff_all_right(s);
    lemma_gather_done(positions(s), s.num_disks, Peg::Right);
}

/// From the starting position, the plan is the classic solution.
pub proof fn lemma_fresh_plan_is_classic(n: nat)
    requires
        1 <= n <= MAX_GAME_DISKS,
    ensures
        solution_from(initial_state(n)) == hanoi_moves(n, Peg::Left, Peg::Right, Peg::Middle),
{
    lemma_initial_state(n);
    lemma_gather_tower(positions(initial_state(n)), n, Peg::Left, Peg::Right);
}

} // verus!
