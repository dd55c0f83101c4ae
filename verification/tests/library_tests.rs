use hanoi_logic::controls::{
    adjust_disk_count, game_status, key_action, pointer_action, select_peg, AutoSolver,
    GameStatus, KeyAction, KeyPresses, PointerAction, PointerEvent, DEFAULT_DISKS, MAX_DISKS,
    MIN_DISKS,
};
use hanoi_logic::{other_peg, solve, solve_from_current, HanoiGame, Move, MoveError, Peg};

const ALL_MOVES: [Move; 9] = [
    Move { from: Peg::Left, to: Peg::Left },
    Move { from: Peg::Left, to: Peg::Middle },
    Move { from: Peg::Left, to: Peg::Right },
    Move { from: Peg::Middle, to: Peg::Left },
    Move { from: Peg::Middle, to: Peg::Middle },
    Move { from: Peg::Middle, to: Peg::Right },
    Move { from: Peg::Right, to: Peg::Left },
    Move { from: Peg::Right, to: Peg::Middle },
    Move { from: Peg::Right, to: Peg::Right },
];

fn snapshot(game: &HanoiGame) -> (Vec<u8>, Vec<u8>, Vec<u8>, u32) {
    (
        game.disks_on(Peg::Left).to_vec(),
        game.disks_on(Peg::Middle).to_vec(),
        game.disks_on(Peg::Right).to_vec(),
        game.move_count(),
    )
}

/// Every peg strictly decreases upwards and the disks 1..=n each appear once.
fn assert_legal(game: &HanoiGame) {
    let n = game.num_disks() as usize;
    let mut seen = vec![false; n + 1];
    for peg in Peg::ALL {
        let disks = game.disks_on(peg);
        for w in disks.windows(2) {
            assert!(w[0] > w[1]);
        }
        for &d in disks {
            assert!(d >= 1 && (d as usize) <= n);
            assert!(!seen[d as usize]);
            seen[d as usize] = true;
        }
    }
    assert!(seen[1..].iter().all(|&b| b));
}

#[test]
fn index_round_trip() {
    for peg in Peg::ALL {
        assert_eq!(Peg::from_index(peg.index()), Some(peg));
    }
    assert_eq!(Peg::Left.index(), 0);
    assert_eq!(Peg::Middle.index(), 1);
    assert_eq!(Peg::Right.index(), 2);
    assert_eq!(Peg::from_index(usize::MAX), None);
}

#[test]
fn other_peg_is_the_third() {
    assert_eq!(other_peg(Peg::Left, Peg::Middle), Peg::Right);
    assert_eq!(other_peg(Peg::Middle, Peg::Left), Peg::Right);
    assert_eq!(other_peg(Peg::Left, Peg::Right), Peg::Middle);
    assert_eq!(other_peg(Peg::Right, Peg::Left), Peg::Middle);
    assert_eq!(other_peg(Peg::Middle, Peg::Right), Peg::Left);
    assert_eq!(other_peg(Peg::Right, Peg::Middle), Peg::Left);
    // With the same peg twice, the first other peg from the left.
    assert_eq!(other_peg(Peg::Left, Peg::Left), Peg::Middle);
    assert_eq!(other_peg(Peg::Middle, Peg::Middle), Peg::Left);
    assert_eq!(other_peg(Peg::Right, Peg::Right), Peg::Left);
}

#[test]
fn refused_move_changes_nothing() {
    let mut game = HanoiGame::new(3);
    game.make_move(Move { from: Peg::Left, to: Peg::Middle }).unwrap();
    let before = snapshot(&game);
    for m in [
        Move { from: Peg::Left, to: Peg::Middle },
        Move { from: Peg::Right, to: Peg::Left },
        Move { from: Peg::Middle, to: Peg::Middle },
    ] {
        assert!(game.make_move(m).is_err());
        assert_eq!(snapshot(&game), before);
    }
}

#[test]
fn is_valid_move_agrees_with_make_move() {
    let mut game = HanoiGame::new(4);
    for step in solve(4, Peg::Left, Peg::Right, Peg::Middle) {
        for m in ALL_MOVES {
            let mut probe = game.clone();
            assert_eq!(game.is_valid_move(m), probe.make_move(m).is_ok());
        }
        game.make_move(step).unwrap();
        assert_legal(&game);
    }
}

#[test]
fn successful_move_moves_the_top_disk() {
    let mut game = HanoiGame::new(3);
    game.make_move(Move { from: Peg::Left, to: Peg::Right }).unwrap();
    assert_eq!(game.top_disk(Peg::Left), Some(2));
    assert_eq!(game.make_move(Move { from: Peg::Left, to: Peg::Middle }), Ok(2));
    assert_eq!(game.disks_on(Peg::Left), &[3]);
    assert_eq!(game.disks_on(Peg::Middle), &[2]);
    assert_eq!(game.disks_on(Peg::Right), &[1]);
    assert_eq!(game.move_count(), 2);
    assert_eq!(game.top_disk(Peg::Right), Some(1));
    assert_eq!(game.make_move(Move { from: Peg::Right, to: Peg::Middle }), Ok(1));
    assert_eq!(game.disks_on(Peg::Middle), &[2, 1]);
    assert_eq!(game.top_disk(Peg::Right), None);
}

#[test]
fn errors_come_in_order() {
    let game = HanoiGame::new(2);
    let mut probe = game.clone();
    assert_eq!(
        probe.make_move(Move { from: Peg::Right, to: Peg::Right }),
        Err(MoveError::SamePeg)
    );
    assert_eq!(
        probe.make_move(Move { from: Peg::Middle, to: Peg::Right }),
        Err(MoveError::EmptySource)
    );
    probe.make_move(Move { from: Peg::Left, to: Peg::Middle }).unwrap();
    assert_eq!(
        probe.make_move(Move { from: Peg::Left, to: Peg::Middle }),
        Err(MoveError::InvalidPlacement)
    );
}

#[test]
fn classic_solution_for_two_disks() {
    let moves = solve(2, Peg::Left, Peg::Right, Peg::Middle);
    assert_eq!(
        moves,
        vec![
            Move { from: Peg::Left, to: Peg::Middle },
            Move { from: Peg::Left, to: Peg::Right },
            Move { from: Peg::Middle, to: Peg::Right },
        ]
    );
    assert!(solve(0, Peg::Left, Peg::Right, Peg::Middle).is_empty());
}

#[test]
fn classic_solution_takes_minimum_moves() {
    for n in 1..=12u8 {
        let mut game = HanoiGame::new(n);
        for m in solve(n, Peg::Left, Peg::Right, Peg::Middle) {
            game.make_move(m).unwrap();
            assert_legal(&game);
        }
        assert!(game.is_solved());
        assert_eq!(game.move_count(), game.minimum_moves());
    }
}

#[test]
fn classic_solution_between_other_pegs() {
    let mut game = HanoiGame::new(3);
    for m in solve(3, Peg::Left, Peg::Middle, Peg::Right) {
        game.make_move(m).unwrap();
    }
    assert_eq!(game.disks_on(Peg::Middle), &[3, 2, 1]);
    for m in solve(3, Peg::Middle, Peg::Right, Peg::Left) {
        game.make_move(m).unwrap();
    }
    assert!(game.is_solved());
    assert_eq!(game.move_count(), 14);
}

#[test]
fn fresh_plan_is_the_classic_solution() {
    for n in 1..=8u8 {
        let game = HanoiGame::new(n);
        assert_eq!(
            solve_from_current(&game),
            solve(n, Peg::Left, Peg::Right, Peg::Middle)
        );
    }
}

#[test]
fn plan_solves_every_reachable_state() {
    let mut game = HanoiGame::new(4);
    let walk = [
        Move { from: Peg::Left, to: Peg::Middle },
        Move { from: Peg::Left, to: Peg::Right },
        Move { from: Peg::Middle, to: Peg::Left },
        Move { from: Peg::Right, to: Peg::Middle },
        Move { from: Peg::Left, to: Peg::Middle },
        Move { from: Peg::Left, to: Peg::Right },
    ];
    for m in walk {
        let _ = game.make_move(m);
        let plan = solve_from_current(&game);
        assert!(plan.len() <= 15);
        let mut g = game.clone();
        for step in &plan {
            g.make_move(*step).unwrap();
        }
        assert!(g.is_solved());
        assert_eq!(g.move_count(), game.move_count() + plan.len() as u32);
        assert_legal(&g);
    }
}

#[test]
fn plan_from_mid_game_exact() {
    let mut game = HanoiGame::new(2);
    game.make_move(Move { from: Peg::Left, to: Peg::Right }).unwrap();
    // Disk 2 is on the left: disk 1 goes to the middle, disk 2 to the right, disk 1 on top.
    assert_eq!(
        solve_from_current(&game),
        vec![
            Move { from: Peg::Right, to: Peg::Middle },
            Move { from: Peg::Left, to: Peg::Right },
            Move { from: Peg::Middle, to: Peg::Right },
        ]
    );
}

#[test]
fn minimum_moves_edges() {
    assert_eq!(HanoiGame::new(1).minimum_moves(), 1);
    assert_eq!(HanoiGame::new(20).minimum_moves(), 1_048_575);
    assert_eq!(HanoiGame::new(20).disks_on(Peg::Left).len(), 20);
}

#[test]
fn reset_keeps_disk_count() {
    let mut game = HanoiGame::new(4);
    game.make_move(Move { from: Peg::Left, to: Peg::Middle }).unwrap();
    game.reset();
    assert_eq!(game.num_disks(), 4);
    assert_eq!(game.disks_on(Peg::Left), &[4, 3, 2, 1]);
    assert!(game.disks_on(Peg::Middle).is_empty());
    assert!(game.disks_on(Peg::Right).is_empty());
    assert_eq!(game.move_count(), 0);
}

#[test]
fn disk_count_setting_stays_in_range() {
    assert_eq!(adjust_disk_count(DEFAULT_DISKS, true), 6);
    assert_eq!(adjust_disk_count(DEFAULT_DISKS, false), 4);
    assert_eq!(adjust_disk_count(MAX_DISKS, true), MAX_DISKS);
    assert_eq!(adjust_disk_count(MIN_DISKS, false), MIN_DISKS);
    assert_eq!(adjust_disk_count(0, false), MIN_DISKS);
    assert_eq!(adjust_disk_count(3, false), 2);
    assert_eq!(adjust_disk_count(9, true), 10);
}

#[test]
fn selecting_pegs_moves_disks() {
    let mut game = HanoiGame::new(3);
    assert_eq!(select_peg(&mut game, None, Peg::Middle), None);
    let sel = select_peg(&mut game, None, Peg::Left);
    assert_eq!(sel, Some(Peg::Left));
    assert_eq!(select_peg(&mut game, sel, Peg::Left), None);
    assert_eq!(game.move_count(), 0);
    assert_eq!(select_peg(&mut game, sel, Peg::Right), None);
    assert_eq!(game.disks_on(Peg::Right), &[1]);
    assert_eq!(game.move_count(), 1);
    // A refused move clears the selection and changes nothing.
    let sel = select_peg(&mut game, None, Peg::Left);
    assert_eq!(select_peg(&mut game, sel, Peg::Right), None);
    assert_eq!(game.disks_on(Peg::Left), &[3, 2]);
    assert_eq!(game.move_count(), 1);
}

#[test]
fn status_reports_progress() {
    let mut game = HanoiGame::new(2);
    assert_eq!(game_status(&game, false), GameStatus::Playing);
    assert_eq!(game_status(&game, true), GameStatus::AutoSolving);
    for m in solve(2, Peg::Left, Peg::Right, Peg::Middle) {
        game.make_move(m).unwrap();
    }
    assert_eq!(game_status(&game, false), GameStatus::SolvedPerfect);
    let mut slow = HanoiGame::new(1);
    slow.make_move(Move { from: Peg::Left, to: Peg::Middle }).unwrap();
    slow.make_move(Move { from: Peg::Middle, to: Peg::Right }).unwrap();
    assert_eq!(
        game_status(&slow, true),
        GameStatus::Solved { moves: 2, optimal: 1 }
    );
}

#[test]
fn auto_solver_finishes_solved() {
    let mut game = HanoiGame::new(3);
    game.make_move(Move { from: Peg::Left, to: Peg::Middle }).unwrap();
    let mut solver = AutoSolver::start(&game);
    assert!(solver.active);
    let planned = solver.moves.len();
    let mut steps = 0;
    while solver.active {
        solver.step(&mut game);
        steps += 1;
    }
    assert_eq!(steps, planned + 1);
    assert!(game.is_solved());
    assert_eq!(game.move_count() as usize, 1 + planned);
    let mut idle = AutoSolver::idle();
    idle.step(&mut game);
    assert!(!idle.active);
    assert_eq!(idle.move_index, 0);
}

fn no_keys() -> KeyPresses {
    KeyPresses {
        cancel: false,
        solve: false,
        reset: false,
        more_disks: false,
        fewer_disks: false,
        peg: None,
    }
}

#[test]
fn keys_act_in_priority_order() {
    let all = KeyPresses {
        cancel: true,
        solve: true,
        reset: true,
        more_disks: true,
        fewer_disks: true,
        peg: Some(Peg::Middle),
    };
    assert_eq!(key_action(all, false, false, 5, 5), KeyAction::Cancel);
    let k = KeyPresses { cancel: false, ..all };
    assert_eq!(key_action(k, false, false, 5, 5), KeyAction::StartAutoSolve);
    // Solving a solved game is not offered; reset comes next.
    assert_eq!(key_action(k, true, false, 5, 5), KeyAction::Reset(5));
    let k = KeyPresses { cancel: false, solve: false, reset: false, ..all };
    assert_eq!(key_action(k, false, false, 4, 7), KeyAction::SetDiskCount(8));
    let k = KeyPresses { more_disks: false, ..k };
    assert_eq!(key_action(k, false, false, 4, 7), KeyAction::SetDiskCount(6));
    assert_eq!(key_action(k, false, false, 4, MIN_DISKS), KeyAction::SetDiskCount(MIN_DISKS));
    let k = KeyPresses { peg: Some(Peg::Right), ..no_keys() };
    assert_eq!(key_action(k, false, false, 3, 3), KeyAction::SelectPeg(Peg::Right));
    assert_eq!(key_action(k, false, true, 3, 3), KeyAction::Nothing);
    assert_eq!(key_action(no_keys(), false, false, 3, 3), KeyAction::Nothing);
}

/// Shortest number of moves from each reachable state of `n` disks to a
/// solved state, found by exploring every move.
fn shortest_to_solved(start: &HanoiGame) -> usize {
    let key = |g: &HanoiGame| snapshot(g).0.iter().chain([255u8].iter())
        .chain(snapshot(g).1.iter()).chain([255u8].iter())
        .chain(snapshot(g).2.iter()).copied().collect::<Vec<u8>>();
    let mut seen = std::collections::HashSet::new();
    let mut frontier = vec![start.clone()];
    seen.insert(key(start));
    let mut depth = 0;
    loop {
        if frontier.iter().any(|g| g.is_solved()) {
            return depth;
        }
        let mut next = Vec::new();
        for g in &frontier {
            for m in ALL_MOVES {
                let mut h = g.clone();
                if h.make_move(m).is_ok() && seen.insert(key(&h)) {
                    next.push(h);
                }
            }
        }
        frontier = next;
        depth += 1;
    }
}

#[test]
fn plan_is_a_shortest_solution() {
    // Every position of 4 disks, reached by exploring all moves from the start.
    let start = HanoiGame::new(4);
    let mut all = vec![start.clone()];
    let mut i = 0;
    while i < all.len() {
        for m in ALL_MOVES {
            let mut h = all[i].clone();
            if h.make_move(m).is_ok()
                && !all.iter().any(|g| snapshot(g).0 == snapshot(&h).0
                    && snapshot(g).1 == snapshot(&h).1
                    && snapshot(g).2 == snapshot(&h).2)
            {
                all.push(h);
            }
        }
        i += 1;
    }
    assert_eq!(all.len(), 81);
    for g in &all {
        assert_eq!(solve_from_current(g).len(), shortest_to_solved(g));
    }
}

#[test]
fn earlier_keys_take_precedence_over_an_overflowing_setting() {
    let k = KeyPresses { cancel: true, more_disks: true, ..no_keys() };
    assert_eq!(key_action(k, false, false, 3, u8::MAX), KeyAction::Cancel);
    let k = KeyPresses { reset: true, more_disks: true, ..no_keys() };
    assert_eq!(key_action(k, false, false, 3, u8::MAX), KeyAction::Reset(3));
}

#[test]
fn duplicate_keeps_the_state() {
    let mut game = HanoiGame::new(3);
    game.make_move(Move { from: Peg::Left, to: Peg::Middle }).unwrap();
    let copy = game.duplicate();
    assert_eq!(snapshot(&copy), snapshot(&game));
    assert_eq!(copy.num_disks(), 3);
}

#[test]
fn pointer_release_drops_or_ends_drag() {
    let game = HanoiGame::new(3);
    let none: Vec<(u8, Peg)> = Vec::new();
    let released = |over| PointerEvent::Released { over };
    assert_eq!(
        pointer_action(&game, false, None, Some(Peg::Left), &none, released(Some(Peg::Right))),
        PointerAction::Drop(Move { from: Peg::Left, to: Peg::Right })
    );
    assert_eq!(
        pointer_action(&game, false, None, Some(Peg::Left), &none, released(Some(Peg::Left))),
        PointerAction::EndDrag
    );
    assert_eq!(
        pointer_action(&game, false, None, Some(Peg::Left), &none, released(None)),
        PointerAction::EndDrag
    );
    assert_eq!(
        pointer_action(&game, false, None, None, &none, released(Some(Peg::Right))),
        PointerAction::Nothing
    );
    // Ignored while solving automatically.
    assert_eq!(
        pointer_action(&game, true, None, Some(Peg::Left), &none, released(Some(Peg::Right))),
        PointerAction::Nothing
    );
}

#[test]
fn pointer_press_selects_or_drags() {
    let mut game = HanoiGame::new(3);
    game.make_move(Move { from: Peg::Left, to: Peg::Middle }).unwrap();
    let pressed = |over| PointerEvent::Pressed { over };
    let none: Vec<(u8, Peg)> = Vec::new();
    // With a selection, the click completes it on the peg under the cursor.
    assert_eq!(
        pointer_action(&game, false, Some(Peg::Left), None, &vec![(1, Peg::Middle)], pressed(Some(Peg::Right))),
        PointerAction::ChoosePeg(Peg::Right)
    );
    assert_eq!(
        pointer_action(&game, false, Some(Peg::Left), None, &none, pressed(None)),
        PointerAction::Nothing
    );
    // The first hit that is a top disk starts a drag.
    let hits = vec![(3, Peg::Left), (1, Peg::Middle), (2, Peg::Left)];
    assert_eq!(
        pointer_action(&game, false, None, None, &hits, pressed(Some(Peg::Left))),
        PointerAction::StartDrag(1)
    );
    // A disk that is not on top is not dragged; the peg is selected instead.
    assert_eq!(
        pointer_action(&game, false, None, None, &vec![(3, Peg::Left)], pressed(Some(Peg::Left))),
        PointerAction::Select(Peg::Left)
    );
    assert_eq!(
        pointer_action(&game, false, None, None, &none, pressed(Some(Peg::Right))),
        PointerAction::Nothing
    );
    assert_eq!(
        pointer_action(&game, true, None, None, &hits, pressed(Some(Peg::Left))),
        PointerAction::Nothing
    );
}

#[test]
fn plan_contract_examples() {
    let mut game = HanoiGame::new(5);
    game.make_move(Move { from: Peg::Left, to: Peg::Right }).unwrap();
    let plan = solve_from_current(&game);
    assert!(plan.len() <= 31);
    let mut g = game.duplicate();
    for m in &plan {
        assert_eq!(g.is_valid_move(*m), true);
        g.make_move(*m).unwrap();
    }
    assert!(g.is_solved());
    assert_eq!(g.move_count() as usize, 1 + plan.len());
}
