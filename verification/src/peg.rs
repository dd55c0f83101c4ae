//! Pegs, moves and the errors a move can raise.

use vstd::prelude::*;

verus! {

/// One of the three pegs (columns), from left to right.
#[derive(Debug, Clone, Copy, PartialEq, Eq, Hash, Structural)]
pub enum Peg {
    Left,
    Middle,
    Right,
}

/// A single move: take the top disk from `from` and place it on `to`.
#[derive(Debug, Clone, Copy, PartialEq, Eq, Structural)]
pub struct Move {
    pub from: Peg,
    pub to: Peg,
}

/// Errors that can occur when attempting a move.
#[derive(Debug, Clone, Copy, PartialEq, Eq, Structural)]
pub enum MoveError {
    /// The source peg has no disks.
    EmptySource,
    /// Cannot place a larger disk on a smaller one.
    InvalidPlacement,
    /// Source and destination are the same peg.
    SamePeg,
}

/// The 0-based position of a peg, counted from the left.
pub open spec fn peg_id(p: Peg) -> int {
    match p {
        Peg::Left => 0,
        Peg::Middle => 1,
        Peg::Right => 2,
    }
}

/// The peg at a 0-based position; positions past 2 name the right peg.
pub open spec fn peg_at(i: int) -> Peg {
    if i == 0 {
        Peg::Left
    } else if i == 1 {
        Peg::Middle
    } else {
        Peg::Right
    }
}

/// The peg named by a 0-based index, if the index names one.
pub open spec fn peg_of_index(i: int) -> Option<Peg> {
    if 0 <= i < 3 {
        Some(peg_at(i))
    } else {
        None
    }
}

/// The first peg, from left to right, that is neither `a` nor `b`; when
/// `a != b` this is the third peg.
pub open spec fn third_peg(a: Peg, b: Peg) -> Peg {
    if a != Peg::Left && b != Peg::Left {
        Peg::Left
    } else if a != Peg::Middle && b != Peg::Middle {
        Peg::Middle
    } else {
        Peg::Right
    }
}

impl Peg {
    /// All pegs, from left to right.
    pub const ALL: [Peg; 3] = [Peg::Left, Peg::Middle, Peg::Right];

    /// Return the peg corresponding to a 0-based index.
    pub fn from_index(i: usize) -> (r: Option<Peg>)
        ensures
            r == peg_of_index(i as int),
    {
        match i {
            0 => Some(Peg::Left),
            1 => Some(Peg::Middle),
            2 => Some(Peg::Right),
            _ => None,
        }
    }

    /// The 0-based index of this peg.
    pub fn index(self) -> (r: usize)
        ensures
            r == peg_id(self),
    {
        match self {
            Peg::Left => 0,
            Peg::Middle => 1,
            Peg::Right => 2,
        }
    }
}

/// The first peg, from left to right, that is neither `a` nor `b`.
pub fn other_peg(a: Peg, b: Peg) -> (r: Peg)
    ensures
        r == third_peg(a, b),
        r != a,
        r != b,
{
    let mut i: usize = 0;
    while i < 3
        invariant
            i <= 3,
            forall|j: int| 0 <= j < i ==> peg_at(j) == a || peg_at(j) == b,
        decreases 3 - i,
    {
        let p = Peg::ALL[i];
        assert(p == peg_at(i as int));
        if p != a && p != b {
            proof {
                if i >= 1 {
                    assert(peg_at(0) == a || peg_at(0) == b);
                }
                if i >= 2 {
                    assert(peg_at(1) == a || peg_at(1) == b);
                }
            }
            return p;
        }
        i = i + 1;
    }
    assert(peg_at(0) == a || peg_at(0) == b);
    assert(peg_at(1) == a || peg_at(1) == b);
    assert(peg_at(2) == a || peg_at(2) == b);
    Peg::Right
}

/// `peg_at` undoes `peg_id`, and `peg_id` of a position 0..3 gives it back.
pub proof fn lemma_peg_id_round_trip(p: Peg, i: int)
    ensures
        peg_at(peg_id(p)) == p,
        0 <= peg_id(p) < 3,
        0 <= i < 3 ==> peg_id(peg_at(i)) == i,
{
}

/// Indexing is a round trip: the peg at a peg's own index is that peg, and
/// exactly the indices 0, 1 and 2 name a peg.
pub proof fn lemma_index_round_trip(p: Peg)
    ensures
        peg_of_index(peg_id(p)) == Some(p),
        forall|i: int| #[trigger] peg_of_index(i) is Some <==> 0 <= i < 3,
        forall|i: int| 0 <= i < 3 ==> peg_id(#[trigger] peg_of_index(i)->Some_0) == i,
{
}

/// The third peg is distinct from both, and the three pegs are a permutation.
pub proof fn lemma_third_peg(a: Peg, b: Peg)
    requires
        a != b,
    ensures
        third_peg(a, b) != a,
        third_peg(a, b) != b,
        peg_id(third_peg(a, b)) == 3 - peg_id(a) - peg_id(b),
        third_peg(a, b) == third_peg(b, a),
        third_peg(a, third_peg(a, b)) == b,
        third_peg(third_peg(a, b), b) == a,
{
}

/// With the same peg twice, the other peg is the leftmost one that differs:
/// it is never that peg, and it is left of the remaining one.
pub proof fn lemma_third_peg_same(a: Peg)
    ensures
        third_peg(a, a) != a,
        forall|q: Peg| q != a ==> peg_id(third_peg(a, a)) <= #[trigger] peg_id(q),
{
}

} // verus!
