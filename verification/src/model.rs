//! The mathematical model of a Tower of Hanoi position.
//!
//! A position of `n` disks is an assignment of each disk `1..=n` to a peg.
//! On every peg the disks are stacked from the largest (bottom) to the
//! smallest (top), so the assignment alone determines every peg's contents.

use vstd::prelude::*;
use crate::peg::{Move, MoveError, peg_id};

verus! {

/// The largest number of disks a game may hold.
pub const MAX_GAME_DISKS: u8 = 20;

/// The abstract state of a game: the disks on each peg (bottom to top,
/// indexed by `peg_id`), the number of disks, and the number of moves made.
#[verifier::ext_equal]
pub struct HanoiState {
    pub pegs: Seq<Seq<u8>>,
    pub num_disks: nat,
    pub move_count: nat,
}

/// The disks among `1..=k` that `pos` puts on peg `p`, bottom (largest) to
/// top (smallest). `pos[d - 1]` is the peg of disk `d`.
pub open spec fn stack(pos: Seq<int>, k: nat, p: int) -> Seq<u8>
    decreases k,
{
    if k == 0 {
        Seq::empty()
    } else if pos[k - 1] == p {
        seq![k as u8] + stack(pos, (k - 1) as nat, p)
    } else {
        stack(pos, (k - 1) as nat, p)
    }
}

/// A full tower of `k` disks: `k, k - 1, ..., 1` from bottom to top.
pub open spec fn tower(k: nat) -> Seq<u8> {
    Seq::new(k, |i: int| (k - i) as u8)
}

/// Stack agreement: two assignments that agree on which of the disks
/// `1..=k` sit on `p` give the same stack on `p`.
pub proof fn lemma_stack_agree(pos1: Seq<int>, pos2: Seq<int>, k: nat, p: int)
    requires
        forall|i: int| 0 <= i < k ==> (pos1[i] == p) == (pos2[i] == p),
    ensures
        stack(pos1, k, p) == stack(pos2, k, p),
    decreases k,
{
    if k > 0 {
        lemma_stack_agree(pos1, pos2, (k - 1) as nat, p);
    }
}

/// A stack holds at most `k` disks; it is empty exactly when no disk of
/// `1..=k` is on the peg, and full exactly when all of them are.
pub proof fn lemma_stack_len(pos: Seq<int>, k: nat, p: int)
    ensures
        stack(pos, k, p).len() <= k,
        stack(pos, k, p).len() == 0 <==> (forall|i: int| 0 <= i < k ==> pos[i] != p),
        stack(pos, k, p).len() == k <==> (forall|i: int| 0 <= i < k ==> pos[i] == p),
    decreases k,
{
    if k > 0 {
        lemma_stack_len(pos, (k - 1) as nat, p);
        if pos[k - 1] == p {
            assert(!(forall|i: int| 0 <= i < k ==> pos[i] != p));
        } else {
            assert(!(forall|i: int| 0 <= i < k ==> pos[i] == p));
        }
    }
}

/// Every disk on a stack belongs to `1..=k` and sits on that peg; every such
/// disk is on the stack; and the stack strictly decreases upwards.
pub proof fn lemma_stack_elems(pos: Seq<int>, k: nat, p: int)
    requires
        k <= 255,
    ensures
        forall|j: int|
            0 <= j < stack(pos, k, p).len() ==> 1 <= #[trigger] stack(pos, k, p)[j] <= k
                && pos[stack(pos, k, p)[j] - 1] == p,
        forall|d: int| 1 <= d <= k && pos[d - 1] == p ==> #[trigger] stack(pos, k, p).contains(d as u8),
        forall|i: int, j: int|
            0 <= i < j < stack(pos, k, p).len() ==> stack(pos, k, p)[i] > stack(pos, k, p)[j],
    decreases k,
{
    if k > 0 {
        let k1 = (k - 1) as nat;
        lemma_stack_elems(pos, k1, p);
        let s1 = stack(pos, k1, p);
        if pos[k - 1] == p {
            let s = stack(pos, k, p);
            assert(s == seq![k as u8] + s1);
            assert forall|j: int| 0 <= j < s.len() implies 1 <= #[trigger] s[j] <= k && pos[s[j]
                - 1] == p by {
                if j > 0 {
                    assert(s[j] == s1[j - 1]);
                }
            }
            assert forall|d: int| 1 <= d <= k && pos[d - 1] == p implies #[trigger] s.contains(d as u8) by {
                if d == k {
                    assert(s[0] == d as u8);
                } else {
                    assert(s1.contains(d as u8));
                    let j = choose|j: int| 0 <= j < s1.len() && s1[j] == d as u8;
                    assert(s[j + 1] == d as u8);
                }
            }
            assert forall|i: int, j: int| 0 <= i < j < s.len() implies s[i] > s[j] by {
                assert(s[j] == s1[j - 1]);
                if i > 0 {
                    assert(s[i] == s1[i - 1]);
                }
            }
        }
    }
}

/// Membership in a stack: disk `d` is on the stack exactly when `d` is one
/// of `1..=k` and sits on that peg.
pub proof fn lemma_stack_contains(pos: Seq<int>, k: nat, p: int, d: int)
    requires
        k <= 255,
        1 <= d <= 255,
    ensures
        stack(pos, k, p).contains(d as u8) <==> (d <= k && pos[d - 1] == p),
{
    lemma_stack_elems(pos, k, p);
    if stack(pos, k, p).contains(d as u8) {
        let j = choose|j: int| 0 <= j < stack(pos, k, p).len() && stack(pos, k, p)[j] == d as u8;
        assert(1 <= stack(pos, k, p)[j] <= k);
    }
}

/// The top of a non-empty stack is the smallest disk on that peg.
pub proof fn lemma_stack_top(pos: Seq<int>, k: nat, p: int)
    requires
        k <= 255,
        stack(pos, k, p).len() > 0,
    ensures
        1 <= stack(pos, k, p).last() <= k,
        pos[stack(pos, k, p).last() - 1] == p,
        forall|e: int| 0 <= e < stack(pos, k, p).last() - 1 ==> pos[e] != p,
    decreases k,
{
    let k1 = (k - 1) as nat;
    let s1 = stack(pos, k1, p);
    lemma_stack_len(pos, k1, p);
    if pos[k - 1] == p {
        let s = stack(pos, k, p);
        assert(s == seq![k as u8] + s1);
        if s1.len() > 0 {
            lemma_stack_top(pos, k1, p);
            assert(s.last() == s1.last());
        } else {
            assert(s.last() == k as u8);
        }
    } else {
        lemma_stack_top(pos, k1, p);
    }
}

/// If `d` is the smallest disk of `1..=k` on `p`, then it is the top of the stack.
pub proof fn lemma_stack_top_is(pos: Seq<int>, k: nat, p: int, d: int)
    requires
        k <= 255,
        1 <= d <= k,
        pos[d - 1] == p,
        forall|e: int| 0 <= e < d - 1 ==> pos[e] != p,
    ensures
        stack(pos, k, p).len() > 0,
        stack(pos, k, p).last() == d as u8,
    decreases k,
{
    let k1 = (k - 1) as nat;
    let s1 = stack(pos, k1, p);
    if k == d {
        lemma_stack_len(pos, k1, p);
        assert(stack(pos, k, p) == seq![k as u8] + s1);
    } else {
        lemma_stack_top_is(pos, k1, p, d);
        if pos[k - 1] == p {
            assert(stack(pos, k, p) == seq![k as u8] + s1);
        }
    }
}

/// Taking the smallest disk `d` off peg `p` pops the top of its stack.
pub proof fn lemma_stack_remove_top(pos: Seq<int>, k: nat, p: int, d: int, q: int)
    requires
        k <= 255,
        k <= pos.len(),
        1 <= d <= k,
        pos[d - 1] == p,
        forall|e: int| 0 <= e < d - 1 ==> pos[e] != p,
        q != p,
    ensures
        stack(pos.update(d - 1, q), k, p) == stack(pos, k, p).drop_last(),
    decreases k,
{
    let pos2 = pos.update(d - 1, q);
    let k1 = (k - 1) as nat;
    if k == d {
        lemma_stack_len(pos, k1, p);
        lemma_stack_agree(pos, pos2, k1, p);
        assert(stack(pos, k, p) == seq![k as u8] + stack(pos, k1, p));
        assert(stack(pos, k, p).drop_last() =~= Seq::<u8>::empty());
    } else {
        lemma_stack_remove_top(pos, k1, p, d, q);
        lemma_stack_top_is(pos, k1, p, d);
        if pos[k - 1] == p {
            let s1 = stack(pos, k1, p);
            assert(stack(pos, k, p) == seq![k as u8] + s1);
            assert(stack(pos2, k, p) == seq![k as u8] + s1.drop_last());
            assert((seq![k as u8] + s1).drop_last() =~= seq![k as u8] + s1.drop_last());
        }
    }
}

/// Placing disk `d` on peg `p`, when no smaller disk is there, pushes it on top.
pub proof fn lemma_stack_add_top(pos: Seq<int>, k: nat, p: int, d: int)
    requires
        k <= 255,
        k <= pos.len(),
        1 <= d <= k,
        pos[d - 1] != p,
        forall|e: int| 0 <= e < d - 1 ==> pos[e] != p,
    ensures
        stack(pos.update(d - 1, p), k, p) == stack(pos, k, p).push(d as u8),
    decreases k,
{
    let pos2 = pos.update(d - 1, p);
    let k1 = (k - 1) as nat;
    if k == d {
        lemma_stack_len(pos, k1, p);
        lemma_stack_agree(pos, pos2, k1, p);
        assert(stack(pos2, k, p) == seq![k as u8] + stack(pos2, k1, p));
        assert(stack(pos2, k, p) =~= Seq::<u8>::empty().push(d as u8));
    } else {
        lemma_stack_add_top(pos, k1, p, d);
        if pos[k - 1] == p {
            let s1 = stack(pos, k1, p);
            assert(stack(pos, k, p) == seq![k as u8] + s1);
            assert(stack(pos2, k, p) == seq![k as u8] + s1.push(d as u8));
            assert((seq![k as u8] + s1).push(d as u8) =~= seq![k as u8] + s1.push(d as u8));
        }
    }
}

/// When every disk of `1..=k` is on `p`, the stack is a full tower.
pub proof fn lemma_stack_full(pos: Seq<int>, k: nat, p: int)
    requires
        k <= 255,
        forall|i: int| 0 <= i < k ==> pos[i] == p,
    ensures
        stack(pos, k, p) == tower(k),
    decreases k,
{
    if k > 0 {
        let k1 = (k - 1) as nat;
        lemma_stack_full(pos, k1, p);
        assert(stack(pos, k, p) =~= tower(k)) by {
            assert(stack(pos, k, p) == seq![k as u8] + tower(k1));
        }
    }
}

/// The contents of the three pegs under the assignment `pos` of `n` disks.
pub open spec fn arrangement(pos: Seq<int>, n: nat) -> Seq<Seq<u8>> {
    seq![stack(pos, n, 0), stack(pos, n, 1), stack(pos, n, 2)]
}

/// The peg that holds disk `d`: the first of left and middle that holds it,
/// and otherwise the right peg.
pub open spec fn peg_holding(pegs: Seq<Seq<u8>>, d: int) -> int {
    if pegs[0].contains(d as u8) {
        0
    } else if pegs[1].contains(d as u8) {
        1
    } else {
        2
    }
}

/// The peg of each disk in a state: entry `d - 1` is the peg of disk `d`.
pub open spec fn positions(s: HanoiState) -> Seq<int> {
    Seq::new(s.num_disks, |i: int| peg_holding(s.pegs, i + 1))
}

/// `pos` assigns each of `n` disks to one of the three pegs.
pub open spec fn placement(pos: Seq<int>, n: nat) -> bool {
    &&& pos.len() == n
    &&& forall|i: int| 0 <= i < n ==> 0 <= #[trigger] pos[i] < 3
}

/// The state with `n` disks assigned to pegs by `pos`, after `count` moves.
pub open spec fn state_of(pos: Seq<int>, n: nat, count: nat) -> HanoiState {
    HanoiState { pegs: arrangement(pos, n), num_disks: n, move_count: count }
}

/// A legal game state: between 1 and `MAX_GAME_DISKS` disks, every disk on
/// exactly one peg, and every peg ordered from largest (bottom) to smallest (top).
pub open spec fn valid_state(s: HanoiState) -> bool {
    &&& 1 <= s.num_disks <= MAX_GAME_DISKS
    &&& s.pegs == arrangement(positions(s), s.num_disks)
}

/// The starting position: all `n` disks on the left peg, no moves made.
pub open spec fn initial_state(n: nat) -> HanoiState {
    HanoiState { pegs: seq![tower(n), Seq::empty(), Seq::empty()], num_disks: n, move_count: 0 }
}

/// The game is solved when the right peg holds as many disks as the game has.
pub open spec fn is_solved_state(s: HanoiState) -> bool {
    s.pegs[2].len() == s.num_disks
}

/// The state built from an assignment is legal, and its assignment is the
/// one it was built from.
pub proof fn lemma_state_of(pos: Seq<int>, n: nat, count: nat)
    requires
        placement(pos, n),
        1 <= n <= MAX_GAME_DISKS,
    ensures
        positions(state_of(pos, n, count)) == pos,
        valid_state(state_of(pos, n, count)),
{
    let s = state_of(pos, n, count);
    assert forall|i: int| 0 <= i < n implies #[trigger] positions(s)[i] == pos[i] by {
        lemma_stack_contains(pos, n, 0, i + 1);
        lemma_stack_contains(pos, n, 1, i + 1);
    }
    assert(positions(s) =~= pos);
}

/// A legal state is the state built from its own assignment.
pub proof fn lemma_valid_state(s: HanoiState)
    requires
        valid_state(s),
    ensures
        placement(positions(s), s.num_disks),
        s == state_of(positions(s), s.num_disks, s.move_count),
{
}

/// The starting position is legal; every disk starts on the left peg.
pub proof fn lemma_initial_state(n: nat)
    requires
        1 <= n <= MAX_GAME_DISKS,
    ensures
        valid_state(initial_state(n)),
        positions(initial_state(n)) == Seq::new(n, |i: int| 0int),
{
    let pos = Seq::new(n, |i: int| 0int);
    lemma_stack_full(pos, n, 0);
    lemma_stack_len(pos, n, 1);
    lemma_stack_len(pos, n, 2);
    lemma_state_of(pos, n, 0);
    assert(stack(pos, n, 1) =~= Seq::<u8>::empty());
    assert(stack(pos, n, 2) =~= Seq::<u8>::empty());
    assert(arrangement(pos, n) =~= initial_state(n).pegs);
    assert(state_of(pos, n, 0) =~= initial_state(n));
}

/// In a legal state, the game is solved exactly when every disk is on the right peg.
pub proof fn lemma_solved_iff_all_right(s: HanoiState)
    requires
        valid_state(s),
    ensures
        is_solved_state(s) <==> (forall|i: int| 0 <= i < s.num_disks ==> positions(s)[i] == 2),
{
    lemma_stack_len(positions(s), s.num_disks, 2);
}

/// What attempting move `m` in state `s` gives: the moved disk, or why not.
pub open spec fn move_outcome(s: HanoiState, m: Move) -> Result<u8, MoveError> {
    let src = s.pegs[peg_id(m.from)];
    let dst = s.pegs[peg_id(m.to)];
    if m.from == m.to {
        Err(MoveError::SamePeg)
    } else if src.len() == 0 {
        Err(MoveError::EmptySource)
    } else if dst.len() > 0 && src.last() > dst.last() {
        Err(MoveError::InvalidPlacement)
    } else {
        Ok(src.last())
    }
}

/// The outcome of a move, case by case: moving onto the same peg is refused
/// first, then moving from an empty peg, then putting a disk on a smaller one;
/// every other move is allowed and takes the top disk of the source peg.
pub proof fn lemma_move_outcome_cases(s: HanoiState, m: Move)
    ensures
        m.from == m.to <==> move_outcome(s, m) == Err::<u8, MoveError>(MoveError::SamePeg),
        move_outcome(s, m) == Err::<u8, MoveError>(MoveError::EmptySource) <==> (m.from != m.to
            && s.pegs[peg_id(m.from)].len() == 0),
        move_outcome(s, m) == Err::<u8, MoveError>(MoveError::InvalidPlacement) <==> (m.from
            != m.to && s.pegs[peg_id(m.from)].len() > 0 && s.pegs[peg_id(m.to)].len() > 0
            && s.pegs[peg_id(m.from)].last() > s.pegs[peg_id(m.to)].last()),
        move_outcome(s, m) is Ok <==> (m.from != m.to && s.pegs[peg_id(m.from)].len() > 0 && (
        s.pegs[peg_id(m.to)].len() == 0 || s.pegs[peg_id(m.from)].last() <= s.pegs[peg_id(
            m.to,
        )].last())),
        move_outcome(s, m) is Ok ==> move_outcome(s, m) == Ok::<u8, MoveError>(
            s.pegs[peg_id(m.from)][s.pegs[peg_id(m.from)].len() - 1],
        ),
{
}

/// An allowed move takes the top disk off its source peg and puts it on top
/// of its destination peg; the third peg and the disk count stay, and one
/// more move is counted.
pub proof fn lemma_after_move_pegs(s: HanoiState, m: Move)
    requires
        s.pegs.len() == 3,
        move_outcome(s, m) is Ok,
    ensures
        after_move(s, m).pegs.len() == 3,
        after_move(s, m).pegs[peg_id(m.from)] == s.pegs[peg_id(m.from)].subrange(
            0,
            s.pegs[peg_id(m.from)].len() - 1,
        ),
        after_move(s, m).pegs[peg_id(m.to)].len() == s.pegs[peg_id(m.to)].len() + 1,
        after_move(s, m).pegs[peg_id(m.to)].subrange(0, s.pegs[peg_id(m.to)].len() as int)
            == s.pegs[peg_id(m.to)],
        after_move(s, m).pegs[peg_id(m.to)].last() == s.pegs[peg_id(m.from)].last(),
        forall|p: int|
            0 <= p < 3 && p != peg_id(m.from) && p != peg_id(m.to) ==> after_move(s, m).pegs[p]
                == s.pegs[p],
        after_move(s, m).num_disks == s.num_disks,
        after_move(s, m).move_count == s.move_count + 1,
{
    assert(after_move(s, m).pegs[peg_id(m.to)].subrange(0, s.pegs[peg_id(m.to)].len() as int)
        =~= s.pegs[peg_id(m.to)]);
}

/// The state after performing the (allowed) move `m` in `s`: the top disk of
/// `from` is taken off and put on top of `to`, and one more move is counted.
pub open spec fn after_move(s: HanoiState, m: Move) -> HanoiState {
    let src = s.pegs[peg_id(m.from)];
    let dst = s.pegs[peg_id(m.to)];
    HanoiState {
        pegs: s.pegs.update(peg_id(m.from), src.drop_last()).update(peg_id(m.to), dst.push(src.last())),
        num_disks: s.num_disks,
        move_count: s.move_count + 1,
    }
}

/// Playing a sequence of moves from `s`: the final state, or `None` as soon
/// as one move is refused.
pub open spec fn play(s: HanoiState, ms: Seq<Move>) -> Option<HanoiState>
    decreases ms.len(),
{
    if ms.len() == 0 {
        Some(s)
    } else if move_outcome(s, ms[0]) is Ok {
        play(after_move(s, ms[0]), ms.drop_first())
    } else {
        None
    }
}

/// Playing `a + b` is playing `a`, then `b` from where `a` ended.
pub proof fn lemma_play_concat(s: HanoiState, a: Seq<Move>, b: Seq<Move>)
    ensures
        play(s, a + b) == (match play(s, a) {
            Some(s2) => play(s2, b),
            None => None,
        }),
    decreases a.len(),
{
    if a.len() == 0 {
        assert(a + b =~= b);
    } else {
        assert((a + b)[0] == a[0]);
        assert((a + b).drop_first() =~= a.drop_first() + b);
        if move_outcome(s, a[0]) is Ok {
            lemma_play_concat(after_move(s, a[0]), a.drop_first(), b);
        }
    }
}

/// Playing `p`, then the allowed move `m`, then `q`: the state after
/// `p + [m]` is the one after `p` with `m` made, and `q` goes on from there.
pub proof fn lemma_play_around_move(s: HanoiState, p: Seq<Move>, m: Move, q: Seq<Move>)
    requires
        play(s, p) is Some,
        move_outcome(play(s, p)->Some_0, m) is Ok,
    ensures
        play(s, p + seq![m]) == Some(after_move(play(s, p)->Some_0, m)),
        play(s, p + seq![m] + q) == play(after_move(play(s, p)->Some_0, m), q),
{
    let s1 = play(s, p)->Some_0;
    let t1 = after_move(s1, m);
    assert(play(s1, seq![m]) == Some(t1)) by {
        assert(seq![m][0] == m);
        assert(seq![m].drop_first() =~= Seq::<Move>::empty());
        assert(play(t1, Seq::<Move>::empty()) == Some(t1));
    }
    lemma_play_concat(s, p, seq![m]);
    lemma_play_concat(s, p + seq![m], q);
}

/// An allowed move in a legal state moves its disk `d`, the smallest disk on
/// `from`, which is smaller than every disk on `to`; the new state is the
/// legal state in which only disk `d` changed peg.
pub proof fn lemma_move_relocates(s: HanoiState, m: Move)
    requires
        valid_state(s),
        move_outcome(s, m) is Ok,
    ensures
        ({
            let d = s.pegs[peg_id(m.from)].last() as int;
            let pos = positions(s);
            &&& 1 <= d <= s.num_disks
            &&& pos[d - 1] == peg_id(m.from)
            &&& forall|e: int| 0 <= e < d - 1 ==> pos[e] != peg_id(m.from) && pos[e] != peg_id(m.to)
            &&& after_move(s, m) == state_of(pos.update(d - 1, peg_id(m.to)), s.num_disks, s.move_count + 1)
            &&& positions(after_move(s, m)) == pos.update(d - 1, peg_id(m.to))
            &&& valid_state(after_move(s, m))
        }),
{
    let n = s.num_disks;
    let pos = positions(s);
    let f = peg_id(m.from);
    let t = peg_id(m.to);
    let src = s.pegs[f];
    let dst = s.pegs[t];
    let d = src.last() as int;
    lemma_stack_top(pos, n, f);
    lemma_stack_len(pos, n, t);
    if dst.len() > 0 {
        lemma_stack_top(pos, n, t);
    }
    assert forall|e: int| 0 <= e < d - 1 implies pos[e] != f && pos[e] != t by {}
    let pos2 = pos.update(d - 1, t);
    lemma_stack_remove_top(pos, n, f, d, t);
    lemma_stack_add_top(pos, n, t, d);
    let o = 3 - f - t;
    lemma_stack_agree(pos, pos2, n, o);
    assert(after_move(s, m).pegs =~= arrangement(pos2, n));
    lemma_state_of(pos2, n, s.move_count + 1);
    assert(after_move(s, m) =~= state_of(pos2, n, s.move_count + 1));
}

/// Moving disk `d` from its peg to `to` is allowed when no smaller disk is on
/// either peg; it gives the state in which only disk `d` changed peg.
pub proof fn lemma_move_ok(s: HanoiState, m: Move, d: int)
    requires
        valid_state(s),
        m.from != m.to,
        1 <= d <= s.num_disks,
        positions(s)[d - 1] == peg_id(m.from),
        forall|e: int|
            0 <= e < d - 1 ==> positions(s)[e] != peg_id(m.from) && positions(s)[e] != peg_id(m.to),
    ensures
        move_outcome(s, m) == Ok::<u8, MoveError>(d as u8),
        after_move(s, m) == state_of(
            positions(s).update(d - 1, peg_id(m.to)),
            s.num_disks,
            s.move_count + 1,
        ),
{
    let n = s.num_disks;
    let pos = positions(s);
    let f = peg_id(m.from);
    let t = peg_id(m.to);
    lemma_stack_top_is(pos, n, f, d);
    if s.pegs[t].len() > 0 {
        lemma_stack_top(pos, n, t);
    }
    lemma_move_relocates(s, m);
}

/// The three stacks of an assignment hold `k` disks in all.
proof fn lemma_stack_total(pos: Seq<int>, k: nat)
    requires
        forall|i: int| 0 <= i < k ==> 0 <= #[trigger] pos[i] < 3,
    ensures
        stack(pos, k, 0).len() + stack(pos, k, 1).len() + stack(pos, k, 2).len() == k,
    decreases k,
{
    if k > 0 {
        lemma_stack_total(pos, (k - 1) as nat);
        assert(0 <= pos[k - 1] < 3);
    }
}

/// What legality means for the pegs themselves: every peg strictly decreases
/// from bottom to top, holds only disks `1..=n`, each disk `1..=n` is on
/// exactly one peg, and the pegs hold `n` disks in all.
pub proof fn lemma_valid_state_pegs(s: HanoiState)
    requires
        valid_state(s),
    ensures
        s.pegs.len() == 3,
        forall|p: int, i: int, j: int|
            0 <= p < 3 && 0 <= i < j < s.pegs[p].len() ==> s.pegs[p][i] > s.pegs[p][j],
        forall|p: int, i: int|
            0 <= p < 3 && 0 <= i < s.pegs[p].len() ==> 1 <= #[trigger] s.pegs[p][i] <= s.num_disks,
        forall|d: int, p: int|
            1 <= d <= s.num_disks && 0 <= p < 3 ==> (#[trigger] s.pegs[p].contains(d as u8) <==> p
                == positions(s)[d - 1]),
        s.pegs[0].len() + s.pegs[1].len() + s.pegs[2].len() == s.num_disks,
{
    let pos = positions(s);
    let n = s.num_disks;
    lemma_stack_elems(pos, n, 0);
    lemma_stack_elems(pos, n, 1);
    lemma_stack_elems(pos, n, 2);
    lemma_stack_total(pos, n);
    assert forall|d: int, p: int| 1 <= d <= n && 0 <= p < 3 implies (#[trigger] s.pegs[p].contains(
        d as u8,
    ) <==> p == pos[d - 1]) by {
        lemma_stack_contains(pos, n, p, d);
    }
}

/// When disks `1..=n` all sit on `t`, the stack on `t` ends with a full
/// tower of them, whatever larger disks lie below.
pub proof fn lemma_stack_ends_with_tower(pos: Seq<int>, k: nat, t: int, n: nat)
    requires
        n <= k <= 255,
        forall|i: int| 0 <= i < n ==> pos[i] == t,
    ensures
        stack(pos, k, t).len() >= n,
        stack(pos, k, t).subrange(stack(pos, k, t).len() - n, stack(pos, k, t).len() as int)
            == tower(n),
    decreases k,
{
    if k == n {
        lemma_stack_full(pos, k, t);
        assert(stack(pos, k, t).subrange(0, k as int) =~= stack(pos, k, t));
    } else {
        let k1 = (k - 1) as nat;
        lemma_stack_ends_with_tower(pos, k1, t, n);
        let s1 = stack(pos, k1, t);
        if pos[k - 1] == t {
            let s = stack(pos, k, t);
            assert(s == seq![k as u8] + s1);
            assert(s.subrange(s.len() - n, s.len() as int) =~= s1.subrange(
                s1.len() - n,
                s1.len() as int,
            ));
        }
    }
}

} // verus!
