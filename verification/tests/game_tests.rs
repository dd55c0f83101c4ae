use hanoi_logic::{solve, solve_from_current, HanoiGame, Move, MoveError, Peg};

#[test]
fn new_game_initial_state() {
    let game = HanoiGame::new(3);
    assert_eq!(game.disks_on(Peg::Left), &[3, 2, 1]);
    assert!(game.disks_on(Peg::Middle).is_empty());
    assert!(game.disks_on(Peg::Right).is_empty());
    assert_eq!(game.move_count(), 0);
    assert!(!game.is_solved());
}

#[test]
fn valid_move() {
    let mut game = HanoiGame::new(3);
    let result = game.make_move(Move {
        from: Peg::Left,
        to: Peg::Right,
    });
    assert_eq!(result, Ok(1));
    assert_eq!(game.disks_on(Peg::Left), &[3, 2]);
    assert_eq!(game.disks_on(Peg::Right), &[1]);
    assert_eq!(game.move_count(), 1);
}

#[test]
fn invalid_placement() {
    let mut game = HanoiGame::new(3);
    game.make_move(Move {
        from: Peg::Left,
        to: Peg::Right,
    })
    .unwrap();
    let result = game.make_move(Move {
        from: Peg::Left,
        to: Peg::Right,
    });
    assert_eq!(result, Err(MoveError::InvalidPlacement));
}

#[test]
fn empty_source() {
    let mut game = HanoiGame::new(3);
    let result = game.make_move(Move {
        from: Peg::Right,
        to: Peg::Left,
    });
    assert_eq!(result, Err(MoveError::EmptySource));
}

#[test]
fn same_peg() {
    let mut game = HanoiGame::new(3);
    let result = game.make_move(Move {
        from: Peg::Left,
        to: Peg::Left,
    });
    assert_eq!(result, Err(MoveError::SamePeg));
}

#[test]
fn solve_1_disk() {
    let moves = solve(1, Peg::Left, Peg::Right, Peg::Middle);
    assert_eq!(moves.len(), 1);
    let mut game = HanoiGame::new(1);
    for m in moves {
        game.make_move(m).unwrap();
    }
    assert!(game.is_solved());
}

#[test]
fn solve_3_disks() {
    let moves = solve(3, Peg::Left, Peg::Right, Peg::Middle);
    assert_eq!(moves.len(), 7);
    let mut game = HanoiGame::new(3);
    for m in moves {
        game.make_move(m).unwrap();
    }
    assert!(game.is_solved());
}

#[test]
fn solve_5_disks() {
    let moves = solve(5, Peg::Left, Peg::Right, Peg::Middle);
    assert_eq!(moves.len(), 31);
    let mut game = HanoiGame::new(5);
    for m in moves {
        game.make_move(m).unwrap();
    }
    assert!(game.is_solved());
}

#[test]
fn solve_optimal_move_count() {
    for n in 1..=10 {
        let moves = solve(n, Peg::Left, Peg::Right, Peg::Middle);
        assert_eq!(moves.len(), (1usize << n) - 1, "optimal for {} disks", n);
    }
}

#[test]
fn solve_from_current_fresh_game() {
    let game = HanoiGame::new(4);
    let moves = solve_from_current(&game);
    let mut g = game.clone();
    for m in &moves {
        g.make_move(*m).unwrap();
    }
    assert!(g.is_solved());
}

#[test]
fn solve_from_current_mid_game() {
    let mut game = HanoiGame::new(3);
    game.make_move(Move {
        from: Peg::Left,
        to: Peg::Right,
    })
    .unwrap();
    game.make_move(Move {
        from: Peg::Left,
        to: Peg::Middle,
    })
    .unwrap();

    let moves = solve_from_current(&game);
    let mut g = game.clone();
    for m in &moves {
        g.make_move(*m).unwrap();
    }
    assert!(g.is_solved());
}

#[test]
fn solve_from_current_already_solved() {
    let mut game = HanoiGame::new(2);
    game.make_move(Move {
        from: Peg::Left,
        to: Peg::Middle,
    })
    .unwrap();
    game.make_move(Move {
        from: Peg::Left,
        to: Peg::Right,
    })
    .unwrap();
    game.make_move(Move {
        from: Peg::Middle,
        to: Peg::Right,
    })
    .unwrap();
    assert!(game.is_solved());

    let moves = solve_from_current(&game);
    assert!(moves.is_empty());
}

#[test]
fn reset_game() {
    let mut game = HanoiGame::new(3);
    game.make_move(Move {
        from: Peg::Left,
        to: Peg::Right,
    })
    .unwrap();
    game.reset();
    assert_eq!(game.disks_on(Peg::Left), &[3, 2, 1]);
    assert_eq!(game.move_count(), 0);
}

#[test]
fn reset_with_different_count() {
    let mut game = HanoiGame::new(3);
    game.reset_with(5);
    assert_eq!(game.num_disks(), 5);
    assert_eq!(game.disks_on(Peg::Left), &[5, 4, 3, 2, 1]);
}

#[test]
fn is_valid_move_check() {
    let game = HanoiGame::new(3);
    assert!(game.is_valid_move(Move {
        from: Peg::Left,
        to: Peg::Right
    }));
    assert!(!game.is_valid_move(Move {
        from: Peg::Right,
        to: Peg::Left
    }));
    assert!(!game.is_valid_move(Move {
        from: Peg::Left,
        to: Peg::Left
    }));
}

#[test]
fn peg_from_index() {
    assert_eq!(Peg::from_index(0), Some(Peg::Left));
    assert_eq!(Peg::from_index(1), Some(Peg::Middle));
    assert_eq!(Peg::from_index(2), Some(Peg::Right));
    assert_eq!(Peg::from_index(3), None);
}

#[test]
fn solve_from_scattered_state() {
    let mut game = HanoiGame::new(4);
    game.make_move(Move {
        from: Peg::Left,
        to: Peg::Middle,
    })
    .unwrap();
    game.make_move(Move {
        from: Peg::Left,
        to: Peg::Right,
    })
    .unwrap();
    game.make_move(Move {
        from: Peg::Middle,
        to: Peg::Right,
    })
    .unwrap();
    game.make_move(Move {
        from: Peg::Left,
        to: Peg::Middle,
    })
    .unwrap();

    let moves = solve_from_current(&game);
    let mut g = game.clone();
    for m in &moves {
        g.make_move(*m).unwrap();
    }
    assert!(g.is_solved());
}

#[test]
fn minimum_moves() {
    let game = HanoiGame::new(3);
    assert_eq!(game.minimum_moves(), 7);
    let game = HanoiGame::new(5);
    assert_eq!(game.minimum_moves(), 31);
}
