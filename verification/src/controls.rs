//! The decisions of the interactive game: the disk-count setting, selecting
//! pegs to move between, stepping through an automatic solution, and the
//! status shown to the player.

use vstd::prelude::*;
use vstd::arithmetic::power2::pow2;
use crate::peg::{Peg, Move, peg_id};
use crate::model::{HanoiState, valid_state, move_outcome, after_move, is_solved_state, play};
use crate::game::HanoiGame;
use crate::solver::{solve_from_current, solution_from, lemma_plan_solves};

verus! {

/// Fewest disks the disk-count setting allows.
pub const MIN_DISKS: u8 = 2;

/// Most disks the disk-count setting allows.
pub const MAX_DISKS: u8 = 10;

/// The disk count a session starts with.
pub const DEFAULT_DISKS: u8 = 5;

/// The disk count after one step up (`increase`) or down, kept within
/// `MIN_DISKS..=MAX_DISKS` as a setting that starts inside that range.
pub open spec fn adjusted_disk_count(count: int, increase: bool) -> int {
    if increase {
        if count + 1 < MAX_DISKS { count + 1 } else { MAX_DISKS as int }
    } else {
        let lowered = if count > 0 { count - 1 } else { 0 };
        if lowered > MIN_DISKS { lowered } else { MIN_DISKS as int }
    }
}

/// The disk-count setting moves by one disk per press and stays within its
/// bounds: from any count below `MAX_DISKS`, one more; from any count above
/// `MIN_DISKS`, one fewer; at a bound, it stays there. A setting inside
/// `MIN_DISKS..=MAX_DISKS` stays inside, and the two steps undo each other
/// away from the bounds.
pub proof fn lemma_disk_count_steps(c: int)
    ensures
        c < MAX_DISKS ==> adjusted_disk_count(c, true) == c + 1,
        c >= MAX_DISKS ==> adjusted_disk_count(c, true) == MAX_DISKS,
        c > MIN_DISKS ==> adjusted_disk_count(c, false) == c - 1,
        0 <= c <= MIN_DISKS ==> adjusted_disk_count(c, false) == MIN_DISKS,
        MIN_DISKS <= c <= MAX_DISKS ==> MIN_DISKS <= adjusted_disk_count(c, true) <= MAX_DISKS
            && MIN_DISKS <= adjusted_disk_count(c, false) <= MAX_DISKS,
        MIN_DISKS <= c < MAX_DISKS ==> adjusted_disk_count(adjusted_disk_count(c, true), false) == c,
        MIN_DISKS < c <= MAX_DISKS ==> adjusted_disk_count(adjusted_disk_count(c, false), true) == c,
{
}

/// Step the disk-count setting up or down.
pub fn adjust_disk_count(count: u8, increase: bool) -> (r: u8)
    requires
        increase ==> count < u8::MAX,
    ensures
        r == adjusted_disk_count(count as int, increase),
        increase && count < MAX_DISKS ==> r == count + 1,
        increase && count >= MAX_DISKS ==> r == MAX_DISKS,
        !increase && count > MIN_DISKS ==> r == count - 1,
        !increase && count <= MIN_DISKS ==> r == MIN_DISKS,
{
    if increase {
        let raised = count + 1;
        if raised < MAX_DISKS {
            raised
        } else {
            MAX_DISKS
        }
    } else {
        let lowered = if count > 0 {
            count - 1
        } else {
            0
        };
        if lowered > MIN_DISKS {
            lowered
        } else {
            MIN_DISKS
        }
    }
}

/// Choose a peg, either by number key or by clicking it.
///
/// With no peg selected, a peg that holds a disk becomes the selection. With
/// a peg selected, choosing it again cancels the selection, and choosing
/// another peg tries to move the top disk there; either way the selection
/// is then cleared.
pub fn select_peg(game: &mut HanoiGame, selected: Option<Peg>, peg: Peg) -> (r: Option<Peg>)
    requires
        valid_state(old(game)@),
        selected matches Some(from) && from != peg && move_outcome(
            old(game)@,
            Move { from: from, to: peg },
        ) is Ok ==> old(game)@.move_count < u32::MAX,
    ensures
        valid_state(final(game)@),
        match selected {
            Some(from) => {
                &&& r == None::<Peg>
                &&& from == peg ==> final(game)@ == old(game)@
                &&& from != peg ==> final(game)@ == (if move_outcome(
                    old(game)@,
                    Move { from: from, to: peg },
                ) is Ok {
                    after_move(old(game)@, Move { from: from, to: peg })
                } else {
                    old(game)@
                })
            },
            None => {
                &&& final(game)@ == old(game)@
                &&& r == (if old(game)@.pegs[peg_id(peg)].len() > 0 {
                    Some(peg)
                } else {
                    None
                })
            },
        },
{
    if let Some(from_peg) = selected {
        if from_peg == peg {
            None
        } else {
            let _ = game.make_move(Move { from: from_peg, to: peg });
            None
        }
    } else if game.top_disk(peg).is_some() {
        Some(peg)
    } else {
        selected
    }
}

/// The keys pressed in one frame, as the game reads them.
#[derive(Debug, Clone, Copy)]
pub struct KeyPresses {
    /// Cancel selection and automatic solving (Esc).
    pub cancel: bool,
    /// Solve automatically from the current state (S).
    pub solve: bool,
    /// Reset the game (R).
    pub reset: bool,
    /// One more disk (+).
    pub more_disks: bool,
    /// One disk fewer (-).
    pub fewer_disks: bool,
    /// The peg chosen by a number key (1, 2 or 3), if any.
    pub peg: Option<Peg>,
}

/// What the keys of one frame ask the game to do.
#[derive(Debug, Clone, Copy, PartialEq, Eq, Structural)]
pub enum KeyAction {
    /// Clear the selection, stop automatic solving and any drag.
    Cancel,
    /// Start solving automatically from the current state.
    StartAutoSolve,
    /// Restart with this many disks, keeping the disk-count setting.
    Reset(u8),
    /// Set the disk-count setting to this value and restart with it.
    SetDiskCount(u8),
    /// Choose this peg, as `select_peg` does.
    SelectPeg(Peg),
    /// Nothing to do.
    Nothing,
}

/// The action for the keys of one frame: cancelling comes first, then
/// solving (only while unsolved), resetting, changing the disk count, and
/// last choosing a peg, which is ignored while solving automatically.
pub fn key_action(keys: KeyPresses, solved: bool, auto_solving: bool, num_disks: u8, disk_setting: u8) -> (r: KeyAction)
    requires
        !keys.cancel && !(keys.solve && !solved) && !keys.reset && keys.more_disks ==> disk_setting
            < u8::MAX,
    ensures
        r == (if keys.cancel {
            KeyAction::Cancel
        } else if keys.solve && !solved {
            KeyAction::StartAutoSolve
        } else if keys.reset {
            KeyAction::Reset(num_disks)
        } else if keys.more_disks {
            KeyAction::SetDiskCount(adjusted_disk_count(disk_setting as int, true) as u8)
        } else if keys.fewer_disks {
            KeyAction::SetDiskCount(adjusted_disk_count(disk_setting as int, false) as u8)
        } else if auto_solving {
            KeyAction::Nothing
        } else {
            match keys.peg {
                Some(p) => KeyAction::SelectPeg(p),
                None => KeyAction::Nothing,
            }
        }),
{
    if keys.cancel {
        return KeyAction::Cancel;
    }
    if keys.solve && !solved {
        return KeyAction::StartAutoSolve;
    }
    if keys.reset {
        return KeyAction::Reset(num_disks);
    }
    let new_count = if keys.more_disks {
        Some(adjust_disk_count(disk_setting, true))
    } else if keys.fewer_disks {
        Some(adjust_disk_count(disk_setting, false))
    } else {
        None
    };
    if let Some(n) = new_count {
        return KeyAction::SetDiskCount(n);
    }
    if auto_solving {
        return KeyAction::Nothing;
    }
    match keys.peg {
        Some(p) => KeyAction::SelectPeg(p),
        None => KeyAction::Nothing,
    }
}

/// A mouse event, with the cursor's peg when the cursor is over one.
#[derive(Debug, Clone, Copy, PartialEq, Eq, Structural)]
pub enum PointerEvent {
    /// The button was pressed.
    Pressed { over: Option<Peg> },
    /// The button was released.
    Released { over: Option<Peg> },
}

/// What a mouse event asks the game to do.
#[derive(Debug, Clone, Copy, PartialEq, Eq, Structural)]
pub enum PointerAction {
    /// Nothing to do.
    Nothing,
    /// End the drag in progress without a move.
    EndDrag,
    /// End the drag in progress and try this move.
    Drop(Move),
    /// Complete the selection on this peg, as `select_peg` does.
    ChoosePeg(Peg),
    /// Start dragging the disk hit at this position of the hit list.
    StartDrag(usize),
    /// Select this peg as the source of a move.
    Select(Peg),
}

/// Disk `disk` is the top disk of peg `p`.
pub open spec fn is_top_disk(s: HanoiState, disk: u8, p: Peg) -> bool {
    s.pegs[peg_id(p)].len() > 0 && s.pegs[peg_id(p)].last() == disk
}

/// In a legal position a disk counts as the top of a peg exactly when it is
/// the last disk of that peg's stack, whatever its size: the largest disk,
/// alone on a peg, is that peg's top disk too.
pub proof fn lemma_top_disk_is_last_of_peg(s: HanoiState, disk: u8, p: Peg)
    requires
        valid_state(s),
    ensures
        is_top_disk(s, disk, p) <==> (s.pegs[peg_id(p)].len() > 0 && s.pegs[peg_id(p)].last()
            == disk),
        s.pegs[peg_id(p)] =~= seq![s.num_disks as u8] ==> is_top_disk(s, s.num_disks as u8, p),
{
}

/// Some disk in the hit list is the top disk of its peg.
pub open spec fn has_top_hit(s: HanoiState, hits: Seq<(u8, Peg)>) -> bool {
    exists|i: int| 0 <= i < hits.len() && #[trigger] is_top_disk(s, hits[i].0, hits[i].1)
}

/// The first position in the hit list whose disk is the top disk of its peg.
pub open spec fn first_top_hit(s: HanoiState, hits: Seq<(u8, Peg)>) -> int {
    choose|i: int|
        0 <= i < hits.len() && is_top_disk(s, hits[i].0, hits[i].1) && forall|j: int|
            0 <= j < i ==> !#[trigger] is_top_disk(s, hits[j].0, hits[j].1)
}

/// A disk is draggable exactly when it is the top of its peg, whatever its
/// size: the hit at position `i` is the first draggable one exactly when its
/// disk is the last of its peg's stack and no earlier hit's disk is.
pub proof fn lemma_first_draggable_hit(s: HanoiState, hits: Seq<(u8, Peg)>, i: int)
    requires
        0 <= i < hits.len(),
        s.pegs[peg_id(hits[i].1)].len() > 0,
        s.pegs[peg_id(hits[i].1)].last() == hits[i].0,
        forall|j: int|
            0 <= j < i ==> !(#[trigger] s.pegs[peg_id(hits[j].1)].len() > 0 && s.pegs[peg_id(
                hits[j].1,
            )].last() == hits[j].0),
    ensures
        has_top_hit(s, hits),
        first_top_hit(s, hits) == i,
{
    assert(is_top_disk(s, hits[i].0, hits[i].1));
    assert forall|j: int| 0 <= j < i implies !#[trigger] is_top_disk(s, hits[j].0, hits[j].1) by {
        assert(!(s.pegs[peg_id(hits[j].1)].len() > 0 && s.pegs[peg_id(hits[j].1)].last()
            == hits[j].0));
    }
    assert(exists|k: int|
        0 <= k < hits.len() && is_top_disk(s, hits[k].0, hits[k].1) && forall|j: int|
            0 <= j < k ==> !#[trigger] is_top_disk(s, hits[j].0, hits[j].1));
    let c = first_top_hit(s, hits);
    if c < i {
        assert(!is_top_disk(s, hits[c].0, hits[c].1));
    }
    if c > i {
        assert(!is_top_disk(s, hits[i].0, hits[i].1));
    }
}

/// The action for a mouse event. The mouse is ignored while the automatic
/// solver plays. Releasing the button ends a drag, moving the dragged disk
/// when the cursor is over another peg. Pressing it with a peg selected
/// completes the selection on the peg under the cursor; otherwise it starts
/// dragging the first disk hit (`hits` lists the disks under the cursor with
/// the peg each stands on) that is the top of its peg, and failing that
/// selects the peg under the cursor if it holds a disk.
pub fn pointer_action(
    game: &HanoiGame,
    auto_solving: bool,
    selected: Option<Peg>,
    dragging_from: Option<Peg>,
    hits: &Vec<(u8, Peg)>,
    event: PointerEvent,
) -> (r: PointerAction)
    requires
        valid_state(game@),
    ensures
        (r is StartDrag) <==> (!auto_solving && event is Pressed && selected is None && exists|i: int|
            0 <= i < hits@.len() && #[trigger] game@.pegs[peg_id(hits@[i].1)].len() > 0
                && game@.pegs[peg_id(hits@[i].1)].last() == hits@[i].0),
        r matches PointerAction::StartDrag(i) ==> {
            &&& i < hits@.len()
            &&& game@.pegs[peg_id(hits@[i as int].1)].len() > 0
            &&& game@.pegs[peg_id(hits@[i as int].1)].last() == hits@[i as int].0
            &&& forall|j: int|
                0 <= j < i ==> !(#[trigger] game@.pegs[peg_id(hits@[j].1)].len() > 0
                    && game@.pegs[peg_id(hits@[j].1)].last() == hits@[j].0)
        },
        r == (if auto_solving {
            PointerAction::Nothing
        } else {
            match event {
                PointerEvent::Released { over } => match dragging_from {
                    Some(f) => match over {
                        Some(t) => if f != t {
                            PointerAction::Drop(Move { from: f, to: t })
                        } else {
                            PointerAction::EndDrag
                        },
                        None => PointerAction::EndDrag,
                    },
                    None => PointerAction::Nothing,
                },
                PointerEvent::Pressed { over } => if selected is Some {
                    match over {
                        Some(p) => PointerAction::ChoosePeg(p),
                        None => PointerAction::Nothing,
                    }
                } else if has_top_hit(game@, hits@) {
                    PointerAction::StartDrag(first_top_hit(game@, hits@) as usize)
                } else {
                    match over {
                        Some(p) => if game@.pegs[peg_id(p)].len() > 0 {
                            PointerAction::Select(p)
                        } else {
                            PointerAction::Nothing
                        },
                        None => PointerAction::Nothing,
                    }
                },
            }
        }),
{
    if auto_solving {
        return PointerAction::Nothing;
    }
    match event {
        PointerEvent::Released { over } => {
            match dragging_from {
                Some(f) => match over {
                    Some(t) => if f != t {
                        PointerAction::Drop(Move { from: f, to: t })
                    } else {
                        PointerAction::EndDrag
                    },
                    None => PointerAction::EndDrag,
                },
                None => PointerAction::Nothing,
            }
        },
        PointerEvent::Pressed { over } => {
            if selected.is_some() {
                return match over {
                    Some(p) => PointerAction::ChoosePeg(p),
                    None => PointerAction::Nothing,
                };
            }
            let mut i: usize = 0;
            while i < hits.len()
                invariant
                    !auto_solving,
                    selected is None,
                    event == (PointerEvent::Pressed { over }),
                    valid_state(game@),
                    i <= hits@.len(),
                    forall|j: int| 0 <= j < i ==> !#[trigger] is_top_disk(game@, hits@[j].0, hits@[j].1),
                decreases hits.len() - i,
            {
                let (disk, peg) = hits[i];
                if game.top_disk(peg) == Some(disk) {
                    proof {
                        let ii = i as int;
                        assert forall|j: int| 0 <= j < ii implies !(#[trigger] game@.pegs[peg_id(
                            hits@[j].1,
                        )].len() > 0 && game@.pegs[peg_id(hits@[j].1)].last() == hits@[j].0) by {
                            assert(!is_top_disk(game@, hits@[j].0, hits@[j].1));
                        }
                        lemma_first_draggable_hit(game@, hits@, ii);
                    }
                    return PointerAction::StartDrag(i);
                }
                i = i + 1;
            }
            proof {
                assert forall|k: int| 0 <= k < hits@.len() implies !(#[trigger] game@.pegs[peg_id(
                    hits@[k].1,
                )].len() > 0 && game@.pegs[peg_id(hits@[k].1)].last() == hits@[k].0) by {
                    assert(!is_top_disk(game@, hits@[k].0, hits@[k].1));
                }
            }
            match over {
                Some(p) => if game.top_disk(p).is_some() {
                    PointerAction::Select(p)
                } else {
                    PointerAction::Nothing
                },
                None => PointerAction::Nothing,
            }
        },
    }
}

/// The status line shown to the player.
#[derive(Debug, Clone, Copy, PartialEq, Eq, Structural)]
pub enum GameStatus {
    /// The game is being played; nothing to announce.
    Playing,
    /// The automatic solver is playing.
    AutoSolving,
    /// Solved in the minimum number of moves.
    SolvedPerfect,
    /// Solved, in more moves than the minimum.
    Solved { moves: u32, optimal: u32 },
}

/// The status of a game, given whether the automatic solver is running.
pub fn game_status(game: &HanoiGame, auto_solving: bool) -> (r: GameStatus)
    requires
        valid_state(game@),
    ensures
        r == (if is_solved_state(game@) {
            if game@.move_count == pow2(game@.num_disks) - 1 {
                GameStatus::SolvedPerfect
            } else {
                GameStatus::Solved {
                    moves: game@.move_count as u32,
                    optimal: (pow2(game@.num_disks) - 1) as u32,
                }
            }
        } else if auto_solving {
            GameStatus::AutoSolving
        } else {
            GameStatus::Playing
        }),
{
    if game.is_solved() {
        let moves = game.move_count();
        let optimal = game.minimum_moves();
        if moves == optimal {
            GameStatus::SolvedPerfect
        } else {
            GameStatus::Solved { moves, optimal }
        }
    } else if auto_solving {
        GameStatus::AutoSolving
    } else {
        GameStatus::Playing
    }
}

/// An automatic solution being played one move at a time.
pub struct AutoSolver {
    pub active: bool,
    pub moves: Vec<Move>,
    pub move_index: usize,
}

impl AutoSolver {
    /// No solution is being played.
    pub fn idle() -> (r: Self)
        ensures
            !r.active,
            r.moves@ == Seq::<Move>::empty(),
            r.move_index == 0,
    {
        AutoSolver { active: false, moves: Vec::new(), move_index: 0 }
    }

    /// Plan the solution of `game` from its current state and start playing it.
    pub fn start(game: &HanoiGame) -> (r: Self)
        requires
            valid_state(game@),
        ensures
            r.active,
            r.moves@ == solution_from(game@),
            r.move_index == 0,
            r.on_track(game@),
    {
        let moves = solve_from_current(game);
        let r = AutoSolver { active: true, moves, move_index: 0 };
        proof {
            lemma_plan_solves(game@);
            assert(r.moves@.skip(0) =~= r.moves@);
        }
        r
    }

    /// The moves still to play lead from `s` to a solved game, each allowed.
    pub open spec fn on_track(&self, s: HanoiState) -> bool {
        &&& self.move_index <= self.moves@.len()
        &&& play(s, self.moves@.skip(self.move_index as int)) matches Some(f) && {
            &&& valid_state(f)
            &&& is_solved_state(f)
        }
    }

    /// Play the next move of the solution, or stop when none is left.
    pub fn step(&mut self, game: &mut HanoiGame)
        requires
            valid_state(old(game)@),
            old(self).active && old(self).move_index < old(self).moves@.len() && move_outcome(
                old(game)@,
                old(self).moves@[old(self).move_index as int],
            ) is Ok ==> old(game)@.move_count < u32::MAX,
        ensures
            valid_state(final(game)@),
            final(self).moves@ == old(self).moves@,
            !old(self).active ==> final(self).active == old(self).active && final(self).move_index
                == old(self).move_index && final(game)@ == old(game)@,
            old(self).active && old(self).move_index < old(self).moves@.len() ==> {
                let m = old(self).moves@[old(self).move_index as int];
                &&& final(self).active
                &&& final(self).move_index == old(self).move_index + 1
                &&& final(game)@ == (if move_outcome(old(game)@, m) is Ok {
                    after_move(old(game)@, m)
                } else {
                    old(game)@
                })
            },
            old(self).active && old(self).move_index >= old(self).moves@.len() ==> {
                &&& !final(self).active
                &&& final(self).move_index == old(self).move_index
                &&& final(game)@ == old(game)@
            },
            old(self).active && old(self).on_track(old(game)@) ==> final(self).on_track(final(game)@),
    {
        if !self.active {
            return;
        }
        if self.move_index < self.moves.len() {
            let m = self.moves[self.move_index];
            let ghost rest = self.moves@.skip(self.move_index as int);
            let _ = game.make_move(m);
            self.move_index = self.move_index + 1;
            proof {
                assert(rest.drop_first() =~= self.moves@.skip(self.move_index as int));
            }
        } else {
            self.active = false;
        }
    }
}

/// An automatic solution that is on track and has played every move leaves
/// the game solved.
pub proof fn lemma_finished_solver_solved(solver: &AutoSolver, s: HanoiState)
    requires
        solver.on_track(s),
        solver.move_index >= solver.moves@.len(),
    ensures
        is_solved_state(s),
{
    assert(solver.moves@.skip(solver.move_index as int) =~= Seq::<Move>::empty());
}

} // verus!
