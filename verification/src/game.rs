//! The game state and the moves played on it.

use vstd::prelude::*;
use vstd::arithmetic::power2::pow2;
use crate::peg::{Peg, Move, MoveError, peg_id};
use crate::model::{
    HanoiState, MAX_GAME_DISKS, valid_state, initial_state, is_solved_state, move_outcome,
    after_move, lemma_initial_state, lemma_move_relocates,
};

verus! {

/// The main game state.
///
/// Disks are represented by their size (1 = smallest). Each peg holds a
/// `Vec<u8>` where index 0 is the bottom disk.
#[derive(Debug, Clone)]
pub struct HanoiGame {
    left: Vec<u8>,
    middle: Vec<u8>,
    right: Vec<u8>,
    num_disks: u8,
    move_count: u32,
}

impl View for HanoiGame {
    type V = HanoiState;

    closed spec fn view(&self) -> HanoiState {
        HanoiState {
            pegs: seq![self.left@, self.middle@, self.right@],
            num_disks: self.num_disks as nat,
            move_count: self.move_count as nat,
        }
    }
}

/// A copy of the disks of one peg.
fn copy_disks(v: &Vec<u8>) -> (r: Vec<u8>)
    ensures
        r@ == v@,
{
    let mut r: Vec<u8> = Vec::new();
    let mut i: usize = 0;
    while i < v.len()
        invariant
            i <= v.len(),
            r@ == v@.subrange(0, i as int),
        decreases v.len() - i,
    {
        r.push(v[i]);
        i = i + 1;
        assert(r@ =~= v@.subrange(0, i as int));
    }
    assert(v@.subrange(0, v.len() as int) =~= v@);
    r
}

impl HanoiGame {
    /// Create a new game with `n` disks, all on the left peg.
    pub fn new(n: u8) -> (game: Self)
        requires
            1 <= n <= MAX_GAME_DISKS,
        ensures
            game@ == initial_state(n as nat),
            valid_state(game@),
    {
        let mut left: Vec<u8> = Vec::with_capacity(n as usize);
        let mut size: u8 = n;
        while size > 0
            invariant
                size <= n,
                left@ == Seq::new((n - size) as nat, |i: int| (n - i) as u8),
            decreases size,
        {
            left.push(size);
            size = size - 1;
            assert(left@ =~= Seq::new((n - size) as nat, |i: int| (n - i) as u8));
        }
        proof {
            lemma_initial_state(n as nat);
        }
        let game = HanoiGame { left, middle: Vec::new(), right: Vec::new(), num_disks: n, move_count: 0 };
        assert(game@ =~= initial_state(n as nat));
        game
    }

    /// Number of disks in this game.
    pub fn num_disks(&self) -> (r: u8)
        ensures
            r == self@.num_disks,
    {
        self.num_disks
    }

    /// Number of moves made so far.
    pub fn move_count(&self) -> (r: u32)
        ensures
            r == self@.move_count,
    {
        self.move_count
    }

    /// The minimum number of moves to solve from the initial state: `2^n - 1`.
    pub fn minimum_moves(&self) -> (r: u32)
        requires
            valid_state(self@),
        ensures
            r == pow2(self@.num_disks) - 1,
    {
        let n = self.num_disks as u32;
        proof {
            vstd::bits::lemma_u32_pow2_no_overflow(n as nat);
            vstd::bits::lemma_u32_shl_is_mul(1, n);
        }
        (1u32 << n) - 1
    }

    /// The disks of one peg, bottom to top.
    fn stack_of(&self, peg: Peg) -> (r: &Vec<u8>)
        ensures
            r@ == self@.pegs[peg_id(peg)],
    {
        match peg {
            Peg::Left => &self.left,
            Peg::Middle => &self.middle,
            Peg::Right => &self.right,
        }
    }

    /// Get the disks on a peg (bottom to top).
    pub fn disks_on(&self, peg: Peg) -> (r: &[u8])
        ensures
            r@ == self@.pegs[peg_id(peg)],
    {
        self.stack_of(peg).as_slice()
    }

    /// The top disk on a peg, if any.
    pub fn top_disk(&self, peg: Peg) -> (r: Option<u8>)
        ensures
            r == (if self@.pegs[peg_id(peg)].len() > 0 {
                Some(self@.pegs[peg_id(peg)].last())
            } else {
                None
            }),
    {
        let disks = self.stack_of(peg);
        let len = disks.len();
        if len == 0 {
            None
        } else {
            Some(disks[len - 1])
        }
    }

    /// Check whether the game is solved (all disks on the right peg).
    pub fn is_solved(&self) -> (r: bool)
        ensures
            r == is_solved_state(self@),
    {
        self.right.len() == self.num_disks as usize
    }

    /// Remove the top disk of a peg.
    fn take_top(&mut self, peg: Peg)
        requires
            old(self)@.pegs[peg_id(peg)].len() > 0,
        ensures
            final(self)@ == (HanoiState {
                pegs: old(self)@.pegs.update(peg_id(peg), old(self)@.pegs[peg_id(peg)].drop_last()),
                ..old(self)@
            }),
    {
        match peg {
            Peg::Left => {
                self.left.pop();
            },
            Peg::Middle => {
                self.middle.pop();
            },
            Peg::Right => {
                self.right.pop();
            },
        }
        assert(self@.pegs =~= old(self)@.pegs.update(
            peg_id(peg),
            old(self)@.pegs[peg_id(peg)].drop_last(),
        ));
    }

    /// Put a disk on top of a peg.
    fn put_on(&mut self, peg: Peg, disk: u8)
        ensures
            final(self)@ == (HanoiState {
                pegs: old(self)@.pegs.update(peg_id(peg), old(self)@.pegs[peg_id(peg)].push(disk)),
                ..old(self)@
            }),
    {
        match peg {
            Peg::Left => self.left.push(disk),
            Peg::Middle => self.middle.push(disk),
            Peg::Right => self.right.push(disk),
        }
        assert(self@.pegs =~= old(self)@.pegs.update(
            peg_id(peg),
            old(self)@.pegs[peg_id(peg)].push(disk),
        ));
    }

    /// Try to move the top disk from `from` to `to`.
    ///
    /// On success the moved disk is returned and one more move is counted; on
    /// failure the game is left unchanged.
    pub fn make_move(&mut self, m: Move) -> (r: Result<u8, MoveError>)
        requires
            valid_state(old(self)@),
            move_outcome(old(self)@, m) is Ok ==> old(self)@.move_count < u32::MAX,
        ensures
            r == move_outcome(old(self)@, m),
            r is Ok ==> final(self)@ == after_move(old(self)@, m),
            r is Err ==> final(self)@ == old(self)@,
            valid_state(final(self)@),
    {
        if m.from == m.to {
            return Err(MoveError::SamePeg);
        }
        let disk = match self.top_disk(m.from) {
            Some(d) => d,
            None => {
                return Err(MoveError::EmptySource);
            },
        };
        if let Some(top) = self.top_disk(m.to) {
            if disk > top {
                return Err(MoveError::InvalidPlacement);
            }
        }
        proof {
            lemma_move_relocates(self@, m);
        }
        self.take_top(m.from);
        self.put_on(m.to, disk);
        self.move_count = self.move_count + 1;
        Ok(disk)
    }

    /// Check if a move is valid without performing it.
    pub fn is_valid_move(&self, m: Move) -> (r: bool)
        ensures
            r == (move_outcome(self@, m) is Ok),
    {
        if m.from == m.to {
            return false;
        }
        let disk = match self.top_disk(m.from) {
            Some(d) => d,
            None => {
                return false;
            },
        };
        if let Some(top) = self.top_disk(m.to) {
            if disk > top {
                return false;
            }
        }
        true
    }

    /// Reset the game to the starting position with the same number of disks.
    pub fn reset(&mut self)
        requires
            valid_state(old(self)@),
        ensures
            final(self)@ == initial_state(old(self)@.num_disks),
            valid_state(final(self)@),
    {
        *self = Self::new(self.num_disks);
    }

    /// Reset the game with a new number of disks.
    pub fn reset_with(&mut self, n: u8)
        requires
            1 <= n <= MAX_GAME_DISKS,
        ensures
            final(self)@ == initial_state(n as nat),
            valid_state(final(self)@),
    {
        *self = Self::new(n);
    }

    /// A copy of this game, in the same state.
    pub fn duplicate(&self) -> (r: Self)
        ensures
            r@ == self@,
    {
        let r = HanoiGame {
            left: copy_disks(&self.left),
            middle: copy_disks(&self.middle),
            right: copy_disks(&self.right),
            num_disks: self.num_disks,
            move_count: self.move_count,
        };
        assert(r@.pegs =~= self@.pegs);
        r
    }

    /// A copy of this game with its move counter at zero, used to plan moves.
    pub(crate) fn planning_copy(&self) -> (r: Self)
        ensures
            r@ == (HanoiState { move_count: 0, ..self@ }),
    {
        let r = HanoiGame {
            left: copy_disks(&self.left),
            middle: copy_disks(&self.middle),
            right: copy_disks(&self.right),
            num_disks: self.num_disks,
            move_count: 0,
        };
        assert(r@.pegs =~= self@.pegs);
        r
    }
}

} // verus!
