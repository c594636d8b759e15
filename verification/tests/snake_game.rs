use std::collections::VecDeque;

use lib::lcg::Lcg;
use lib::snake::{
    advance, occupies, place_food, render_board, steer, step_due, Advance, Cell, RtGame,
    TickOutcome, TurnGame, TurnOutcome, CTRL_C, H, MAX_TURNS, QUIT, ROW, STEP_US, W,
};

fn body(cells: &[Cell]) -> VecDeque<Cell> {
    cells.iter().copied().collect()
}

fn check_invariants(snake: &VecDeque<Cell>, score: u32) {
    assert_eq!(snake.len(), 3 + score as usize);
    for (i, &a) in snake.iter().enumerate() {
        assert!(a.0 >= 1 && a.0 <= W && a.1 >= 1 && a.1 <= H);
        for &b in snake.iter().skip(i + 1) {
            assert!(a != b);
        }
    }
}

#[test]
fn steering() {
    assert_eq!(steer(b'w', (1, 0)), (0, -1));
    assert_eq!(steer(b'S', (1, 0)), (0, 1));
    assert_eq!(steer(b'a', (1, 0)), (1, 0)); // reversal ignored
    assert_eq!(steer(b'd', (0, 1)), (1, 0));
    assert_eq!(steer(b'x', (0, 1)), (0, 1));
}

#[test]
fn advance_moves_eats_and_dies() {
    let mut s = body(&[(5, 4), (4, 4), (3, 4)]);
    assert!(advance(&mut s, (1, 0), (9, 9)) == Advance::Moved);
    assert_eq!(s, body(&[(6, 4), (5, 4), (4, 4)]));
    assert!(advance(&mut s, (1, 0), (7, 4)) == Advance::Ate);
    assert_eq!(s, body(&[(7, 4), (6, 4), (5, 4), (4, 4)]));
    let mut edge = body(&[(12, 1), (11, 1)]);
    assert!(advance(&mut edge, (1, 0), (9, 9)) == Advance::Dead);
    assert_eq!(edge, body(&[(12, 1), (11, 1)]));
}

#[test]
fn advance_into_vacating_tail() {
    // A 4-cell square loop: the head may enter the tail's cell as it leaves.
    let mut s = body(&[(2, 2), (2, 3), (3, 3), (3, 2)]);
    assert!(advance(&mut s, (1, 0), (9, 9)) == Advance::Moved);
    assert_eq!(s, body(&[(3, 2), (2, 2), (2, 3), (3, 3)]));
    // ... but not when it would eat there.
    let mut s = body(&[(2, 2), (2, 3), (3, 3), (3, 2)]);
    assert!(advance(&mut s, (1, 0), (3, 2)) == Advance::Dead);
}

#[test]
fn turn_game_script() {
    let mut g = TurnGame::new();
    let script = b"dddwwaaaa";
    let mut outcome = TurnOutcome::Continue;
    for &key in script.iter() {
        assert!(g.begin_turn());
        outcome = g.play(key);
        check_invariants(&g.snake, g.score);
        if outcome != TurnOutcome::Continue {
            break;
        }
    }
    assert!(outcome == TurnOutcome::Continue);
    // Food at (8,4), (8,2) and (4,2) eaten in turn.
    assert_eq!(g.score, 3);
    assert_eq!(g.snake[0], (4, 2));
    assert_eq!(g.food, (-1, -1));
    assert!(g.play(QUIT) == TurnOutcome::Quit);
}

#[test]
fn turn_game_dies_on_wall_and_quits() {
    let mut g = TurnGame::new();
    let mut dead = false;
    for _ in 0..20 {
        assert!(g.begin_turn());
        if g.play(b'w') == TurnOutcome::Dead {
            dead = true;
            break;
        }
    }
    assert!(dead);
    check_invariants(&g.snake, g.score);
    let mut g = TurnGame::new();
    assert!(g.begin_turn());
    assert!(g.play(CTRL_C) == TurnOutcome::Quit);
}

#[test]
fn turn_game_times_out() {
    let mut g = TurnGame::new();
    let mut turns = 0;
    while g.begin_turn() {
        turns += 1;
    }
    assert_eq!(turns, MAX_TURNS);
    assert_eq!(g.turn, MAX_TURNS + 1);
}

#[test]
fn occupancy() {
    let s = body(&[(5, 4), (4, 4)]);
    assert!(occupies(&s, (4, 4)));
    assert!(!occupies(&s, (3, 4)));
}

#[test]
fn food_placement_avoids_body() {
    let s = body(&[(5, 4), (4, 4), (3, 4)]);
    let mut rng = Lcg(0x00C0_FFEE);
    for _ in 0..50 {
        let c = place_food(&mut rng, &s).unwrap();
        assert!(c.0 >= 1 && c.0 <= W && c.1 >= 1 && c.1 <= H);
        assert!(!s.contains(&c));
    }
}

#[test]
fn food_placement_follows_generator() {
    let s = body(&[(1, 1)]);
    let mut rng = Lcg(7);
    let mut check = Lcg(7);
    let a = check.next();
    let b = check.next();
    let expected = (1 + (a % 12) as i32, 1 + (b % 8) as i32);
    if expected != (1, 1) {
        assert_eq!(place_food(&mut rng, &s), Some(expected));
        assert_eq!(rng.0, check.0);
    }
}

#[test]
fn board_picture() {
    let s = body(&[(5, 4), (4, 4), (3, 4)]);
    let out = render_board(&s, (8, 4));
    assert_eq!(out.len(), (H as usize + 2) * ROW);
    let text = String::from_utf8(out).unwrap();
    let rows: Vec<&str> = text.lines().collect();
    assert_eq!(rows.len(), H as usize + 2);
    assert_eq!(rows[0], "##############");
    assert_eq!(rows[4], "#..oo@..*....#");
    assert_eq!(rows[1], "#............#");
}

#[test]
fn realtime_game_ticks() {
    let mut g = RtGame::new(1_000).unwrap();
    check_invariants(&g.snake, g.score);
    assert!(!g.snake.contains(&g.food));
    assert!(g.tick(1_000 + STEP_US - 1) == TickOutcome::Waiting);
    assert_eq!(g.snake[0], (5, 4));
    let t = g.tick(1_000 + STEP_US);
    assert!(t == TickOutcome::Moved || t == TickOutcome::Ate);
    assert_eq!(g.snake[0], (6, 4));
    assert!(g.key(b's'));
    assert_eq!(g.dir, (0, 1));
    assert!(!g.key(QUIT));
    let mut now = 1_000 + STEP_US;
    loop {
        now += STEP_US;
        match g.tick(now) {
            TickOutcome::Dead => break,
            TickOutcome::NoRoomForFood => panic!("board is not full"),
            _ => check_invariants(&g.snake, g.score),
        }
    }
    check_invariants(&g.snake, g.score);
}

#[test]
fn step_timing() {
    assert!(!step_due(10, 0));
    assert!(step_due(STEP_US, 0));
    // The counter may wrap.
    assert!(step_due(5, u64::MAX - STEP_US));
    assert!(!step_due(5, u64::MAX - 10));
}
